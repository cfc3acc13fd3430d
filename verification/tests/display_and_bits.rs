use draughts::bitboard::{bitboard_index, is_playable, BitBoard};
use draughts::board::{Board, Move};
use draughts::cancel::CancelFlag;
use draughts::piece::Piece;
use draughts::piece_type::PieceType;
use draughts::player::Player;
use draughts::score::NaiveEvaluator;
use draughts::search::{get_alpha_beta_move, pick_random_move};
use draughts::util::{char_of_x, char_of_y, string_of_move};

#[test]
fn square_names() {
    assert_eq!(char_of_x(0), 'A');
    assert_eq!(char_of_x(7), 'H');
    assert_eq!(char_of_y(0), '1');
    assert_eq!(char_of_y(7), '8');
}

#[test]
fn move_written_out() {
    let m: Move = vec![(0, 2), (1, 3)];
    assert_eq!(string_of_move(&m), "A3 -> B4");
    let chain: Move = vec![(2, 2), (4, 4), (6, 6)];
    assert_eq!(string_of_move(&chain), "C3 -> E5 -> G7");
    let empty: Move = Vec::new();
    assert_eq!(string_of_move(&empty), "");
}

#[test]
fn piece_glyphs_differ() {
    let glyphs = [
        Piece::from(Player::White, PieceType::Man).emoji(),
        Piece::from(Player::White, PieceType::King).emoji(),
        Piece::from(Player::Black, PieceType::Man).emoji(),
        Piece::from(Player::Black, PieceType::King).emoji(),
    ];
    for i in 0..4 {
        for j in (i + 1)..4 {
            assert_ne!(glyphs[i], glyphs[j]);
        }
    }
}

#[test]
fn playable_squares_checker_pattern() {
    assert!(is_playable(0, 0));
    assert!(!is_playable(1, 0));
    assert!(is_playable(1, 1));
    assert!(!is_playable(0, 7));
    assert!(is_playable(7, 7));
    assert!(!is_playable(8, 0));
    assert!(!is_playable(0, -1));
    let mut count = 0;
    for x in 0..8 {
        for y in 0..8 {
            if is_playable(x, y) {
                count += 1;
            }
        }
    }
    assert_eq!(count, 32);
}

#[test]
fn bitboard_indexing() {
    assert_eq!(bitboard_index(0, 0), 0);
    assert_eq!(bitboard_index(6, 0), 3);
    assert_eq!(bitboard_index(1, 1), 4);
    assert_eq!(bitboard_index(7, 7), 31);
}

#[test]
fn bitboard_set_and_get() {
    let mut w: u32 = 0;
    w.set(2, 4, true);
    assert!(w.is_some(2, 4));
    assert!(w.is_none(0, 0));
    assert_eq!(w, 1 << 17);
    w.set(2, 4, false);
    assert_eq!(w, 0);
    w.set_bit(5, true);
    assert!(w.get_bit(5));
}

#[test]
fn directional_shift_moves_one_square() {
    // A piece on A1 shifted north east lands on B2.
    let w: u32 = 1 << bitboard_index(0, 0);
    let ne = w.move_direction(&(1, 1));
    assert_eq!(ne, 1 << bitboard_index(1, 1));
    // And back south west.
    assert_eq!(ne.move_direction(&(-1, -1)), w);
    // Off the top of the board the piece disappears.
    let top: u32 = 1 << bitboard_index(7, 7);
    assert_eq!(top.move_direction(&(1, 1)), 0);
    // Off the right edge likewise.
    let right: u32 = 1 << bitboard_index(7, 1);
    assert_eq!(right.move_direction(&(1, 1)), 0);
}

#[test]
fn pick_from_empty_list_is_nothing() {
    let moves: Vec<Move> = Vec::new();
    assert!(pick_random_move(&moves).is_none());
}

#[test]
fn pick_returns_a_member() {
    let moves: Vec<Move> = vec![vec![(0, 2), (1, 3)], vec![(2, 2), (3, 3)]];
    for _ in 0..10 {
        let m = pick_random_move(&moves).unwrap();
        assert!(moves.contains(&m));
    }
}

#[test]
fn cancelled_driver_returns_no_move() {
    let b = Board::new();
    let flag = CancelFlag::new();
    flag.set();
    let m = get_alpha_beta_move(&b, &NaiveEvaluator {}, 8, 6, &flag);
    assert!(m.is_empty());
}

#[test]
fn finished_game_gets_no_move() {
    let mut b = Board::new();
    b.moves_without_capture = 80;
    let flag = CancelFlag::new();
    let m = get_alpha_beta_move(&b, &NaiveEvaluator {}, 8, 6, &flag);
    assert!(m.is_empty());
}
