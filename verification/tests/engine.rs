use draughts::board::{Board, BoardHash, Move};
use draughts::cancel::CancelFlag;
use draughts::piece::Piece;
use draughts::piece_type::PieceType;
use draughts::player::Player;
use draughts::score::{naive_score, Evaluator, NaiveEvaluator, POS_INFINITY};
use draughts::search::{alpha_beta_list, alpha_beta_score, SearchCache};
use draughts::win_status::WinStatus;

fn man(player: Player) -> Piece {
    Piece::from(player, PieceType::Man)
}

fn king(player: Player) -> Piece {
    Piece::from(player, PieceType::King)
}

/// A board holding exactly the given pieces, White to move, empty
/// history.
fn board_with(pieces: &[(i8, i8, Piece)]) -> Board {
    let mut b = Board {
        white_bitboard: 0,
        black_bitboard: 0,
        king_bitboard: 0,
        current_player: Player::White,
        board_count: Vec::new(),
        moves_without_capture: 0,
    };
    for &(x, y, p) in pieces {
        b.set(x, y, Some(p));
    }
    b
}

/// The exhaustive full-width value: every child searched, no pruning, no
/// cache.
fn brute_force(board: &Board, depth: i8) -> i64 {
    if depth == 0 || board.is_end_game() {
        return NaiveEvaluator {}.score(board);
    }
    let mut best = i64::MIN;
    for m in board.possible_moves() {
        let mut child = board.clone();
        child.play(&m);
        let v = -brute_force(&child, depth - 1);
        if v > best {
            best = v;
        }
    }
    best
}

#[test]
fn initial_position_counters() {
    let b = Board::new();
    assert_eq!(b.get_board_count(), 1);
    assert_eq!(b.get_moves_without_capture(), 0);
    assert!(b.get_player_is_white());
    assert_eq!(b.get_piece_counter(man(Player::White)), 12);
    assert_eq!(b.get_piece_counter(man(Player::Black)), 12);
    assert_eq!(b.get_piece_counter(king(Player::White)), 0);
    assert_eq!(b.get_piece_counter(king(Player::Black)), 0);
    let counts = b.get_pieces_counter();
    assert_eq!(counts, vec![12, 0, 12, 0]);
}

#[test]
fn initial_position_score_is_balanced() {
    let b = Board::new();
    assert_eq!(naive_score(&b), 0);
}

#[test]
fn piece_hash_roundtrip() {
    for h in 0..4 {
        assert_eq!(Piece::unhash(h).hash(), h);
    }
    assert_eq!(man(Player::White).hash(), 0);
    assert_eq!(king(Player::Black).hash(), 3);
}

#[test]
fn player_other_flips() {
    assert_eq!(Player::White.other(), Player::Black);
    assert_eq!(Player::Black.other(), Player::White);
    assert!(Player::White.is_white());
    assert!(Player::Black.is_black());
}

#[test]
fn win_status_observers() {
    assert!(WinStatus::Draw.is_draw());
    assert!(WinStatus::Win(Player::White).is_win());
    assert!(!WinStatus::Continue.is_end_game());
    assert_eq!(WinStatus::Win(Player::Black).get_win(), Some(Player::Black));
    assert_eq!(WinStatus::Draw.get_win(), None);
}

#[test]
fn initial_moves_are_seven_forward_steps() {
    // End-to-end: from the initial position every move is a single
    // forward step; there are seven of them.
    let b = Board::new();
    let moves = b.possible_moves();
    assert_eq!(moves.len(), 7);
    for m in &moves {
        assert_eq!(m.len(), 2);
        let (x0, y0) = m[0];
        let (x1, y1) = m[1];
        assert_eq!(y0, 2, "moves start on White's front row");
        assert_eq!(y1 - y0, 1, "a simple step forward");
        assert_eq!((x1 - x0).abs(), 1);
        assert!(b.get(x0, y0) == Some(man(Player::White)));
        assert!(b.get(x1, y1).is_none());
    }
    // Deterministic lexicographic order.
    for w in moves.windows(2) {
        assert!(w[0] <= w[1]);
    }
}

#[test]
fn initial_depth_two_search_returns_moves() {
    // End-to-end: a depth-2 search from the start returns a non-empty
    // set of valid forward steps.
    let b = Board::new();
    let flag = CancelFlag::new();
    let result = alpha_beta_list(&b, &NaiveEvaluator {}, 8, 6, 2, &flag);
    let (_score, best) = result.expect("uncancelled search completes");
    assert!(!best.is_empty());
    let legal = b.possible_moves();
    for m in &best {
        assert!(legal.contains(m));
        assert_eq!(m.len(), 2);
        assert_eq!(m[1].1 - m[0].1, 1);
    }
}

#[test]
fn jumps_are_mandatory_and_exclusive() {
    // A capture exists, so only jump moves come back: no single step is
    // offered even though steps exist.
    let b = board_with(&[
        (2, 2, man(Player::White)),
        (0, 2, man(Player::White)),
        (3, 3, man(Player::Black)),
    ]);
    let moves = b.possible_moves();
    assert!(!moves.is_empty());
    for m in &moves {
        assert!(m.len() >= 2);
        assert_eq!((m[1].1 - m[0].1).abs(), 2, "every move is a jump");
    }
}

#[test]
fn double_jump_is_returned_whole() {
    // End-to-end: a double jump is available; the generator returns the
    // full chain and never a one-jump prefix of it.
    let b = board_with(&[
        (2, 2, man(Player::White)),
        (3, 3, man(Player::Black)),
        (5, 5, man(Player::Black)),
    ]);
    let moves = b.possible_moves();
    assert_eq!(moves.len(), 1);
    assert_eq!(moves[0], vec![(2, 2), (4, 4), (6, 6)]);
}

#[test]
fn jump_chain_capture_updates_board() {
    let mut b = board_with(&[
        (2, 2, man(Player::White)),
        (3, 3, man(Player::Black)),
        (5, 5, man(Player::Black)),
    ]);
    let m: Move = vec![(2, 2), (4, 4), (6, 6)];
    b.play(&m);
    assert!(b.get(2, 2).is_none());
    assert!(b.get(3, 3).is_none());
    assert!(b.get(5, 5).is_none());
    assert_eq!(b.get(6, 6), Some(man(Player::White)));
    assert_eq!(b.get_moves_without_capture(), 0);
    assert!(!b.get_player_is_white());
    assert_eq!(b.get_piece_counter(man(Player::Black)), 0);
}

#[test]
fn promotion_makes_a_king() {
    let mut b = board_with(&[
        (1, 6, man(Player::White)),
        (7, 1, king(Player::Black)),
    ]);
    let m: Move = vec![(1, 6), (0, 7)];
    b.play(&m);
    assert_eq!(b.get(0, 7), Some(king(Player::White)));
    assert_eq!(b.get_moves_without_capture(), 0, "promotion resets the counter");
}

#[test]
fn simple_step_updates_counters() {
    let mut b = Board::new();
    let m: Move = vec![(0, 2), (1, 3)];
    b.play(&m);
    assert!(b.get(0, 2).is_none());
    assert_eq!(b.get(1, 3), Some(man(Player::White)));
    assert!(!b.get_player_is_white());
    assert_eq!(b.get_moves_without_capture(), 1);
    assert_eq!(b.get_board_count(), 1);
}

#[test]
fn threefold_repetition_is_a_draw() {
    // End-to-end: shuffling two kings repeats the position; its third
    // occurrence is a draw and no move is offered.
    let mut b = board_with(&[
        (0, 0, king(Player::White)),
        (7, 7, king(Player::Black)),
    ]);
    // Record the starting position once, as a fresh game would.
    b.board_count = vec![(b.hash(), 1)];
    let shuffle: [Move; 4] = [
        vec![(0, 0), (1, 1)],
        vec![(7, 7), (6, 6)],
        vec![(1, 1), (0, 0)],
        vec![(6, 6), (7, 7)],
    ];
    for round in 0..2 {
        for m in &shuffle {
            assert_eq!(
                b.get_win_status(),
                WinStatus::Continue,
                "round {round}: the game is still open"
            );
            b.play(m);
        }
    }
    assert_eq!(b.get_board_count(), 3);
    assert_eq!(b.get_win_status(), WinStatus::Draw);
    assert!(b.possible_moves().is_empty());
}

#[test]
fn stagnation_counter_draw() {
    let mut b = board_with(&[
        (0, 0, king(Player::White)),
        (7, 7, king(Player::Black)),
    ]);
    b.moves_without_capture = 80;
    assert_eq!(b.get_win_status(), WinStatus::Draw);
    assert!(b.possible_moves().is_empty());
    assert!(b.is_end_game());
}

#[test]
fn no_moves_means_the_opponent_won() {
    // White to move, but White's lone man is blocked in the corner.
    let b = board_with(&[
        (0, 6, man(Player::White)),
        (1, 7, man(Player::Black)),
        (1, 5, king(Player::Black)),
        (2, 6, king(Player::Black)),
        (2, 4, king(Player::Black)),
    ]);
    let moves = b.possible_moves();
    if moves.is_empty() {
        assert_eq!(b.get_win_status(), WinStatus::Win(Player::Black));
    } else {
        // If a capture sequence exists the game is still open; either
        // way status and move list agree.
        assert_eq!(b.get_win_status(), WinStatus::Continue);
    }
}

#[test]
fn search_equals_exhaustive_full_width() {
    // Pruning and caching never change the value: the full-window
    // search equals a brute-force full-width search.
    let boards = [
        Board::new(),
        board_with(&[
            (2, 2, man(Player::White)),
            (3, 3, man(Player::Black)),
            (5, 5, man(Player::Black)),
            (6, 2, man(Player::Black)),
        ]),
        board_with(&[
            (3, 3, king(Player::White)),
            (4, 6, man(Player::Black)),
            (6, 4, man(Player::Black)),
        ]),
    ];
    let flag = CancelFlag::new();
    for b in &boards {
        for depth in 0..4 {
            let expected = brute_force(b, depth);
            let mut cache = SearchCache::new();
            let got = alpha_beta_score(
                b,
                -POS_INFINITY,
                POS_INFINITY,
                &NaiveEvaluator {},
                &mut cache,
                8,
                6,
                depth,
                &flag,
            )
            .expect("uncancelled search completes");
            assert_eq!(got, expected, "depth {depth}");
        }
    }
}

#[test]
fn cache_carried_over_gives_the_same_answer() {
    // Cache idempotence: rerunning the same full-window search on the
    // warmed cache returns what the empty-cache run returned.
    let b = Board::new();
    let flag = CancelFlag::new();
    let e = NaiveEvaluator {};
    let mut cache = SearchCache::new();
    let first = alpha_beta_score(&b, -POS_INFINITY, POS_INFINITY, &e, &mut cache, 8, 6, 3, &flag)
        .unwrap();
    let second = alpha_beta_score(&b, -POS_INFINITY, POS_INFINITY, &e, &mut cache, 8, 6, 3, &flag)
        .unwrap();
    let mut fresh = SearchCache::new();
    let clean = alpha_beta_score(&b, -POS_INFINITY, POS_INFINITY, &e, &mut fresh, 8, 6, 3, &flag)
        .unwrap();
    assert_eq!(first, second);
    assert_eq!(first, clean);
}

#[test]
fn cancelled_search_returns_nothing_and_spoils_nothing() {
    // Cancellation safety: a raised flag yields `None` without panics,
    // and a later uncancelled search over the same cache still gives the
    // full-search answer.
    let b = Board::new();
    let e = NaiveEvaluator {};
    let cancelled = CancelFlag::new();
    cancelled.set();
    let mut cache = SearchCache::new();
    assert!(alpha_beta_score(
        &b,
        -POS_INFINITY,
        POS_INFINITY,
        &e,
        &mut cache,
        8,
        6,
        3,
        &cancelled
    )
    .is_none());
    assert!(alpha_beta_list(&b, &e, 8, 6, 2, &cancelled).is_none());
    let open_flag = CancelFlag::new();
    let after = alpha_beta_score(
        &b,
        -POS_INFINITY,
        POS_INFINITY,
        &e,
        &mut cache,
        8,
        6,
        3,
        &open_flag,
    )
    .unwrap();
    assert_eq!(after, brute_force(&b, 3));
}

#[test]
fn promotion_run_raises_the_score() {
    // End-to-end: a lone man with a clear path promotes, and the deep
    // search sees the king's higher value.
    let b = board_with(&[
        (0, 4, man(Player::White)),
        (7, 1, king(Player::Black)),
    ]);
    let flag = CancelFlag::new();
    let e = NaiveEvaluator {};
    let now = e.score(&b);
    let (deep, best) = alpha_beta_list(&b, &e, 20, 6, 6, &flag).expect("completes");
    assert!(deep > now, "promotion is worth more than standing still");
    assert!(!best.is_empty());
    for m in &best {
        assert_eq!(m[0], (0, 4), "the man advances");
        assert!(m[1].1 > m[0].1);
    }
    assert_eq!(deep, brute_force(&b, 6));
}

#[test]
fn best_move_first_ordering_changes_nothing() {
    // The shallow pre-search reorders children only: with the threshold
    // low enough to trigger it, the value is unchanged.
    let b = board_with(&[
        (2, 2, man(Player::White)),
        (2, 4, man(Player::Black)),
        (6, 2, man(Player::White)),
        (5, 5, king(Player::Black)),
    ]);
    let flag = CancelFlag::new();
    let e = NaiveEvaluator {};
    let plain = alpha_beta_list(&b, &e, 100, 1, 4, &flag).unwrap();
    let ordered = alpha_beta_list(&b, &e, 2, 1, 4, &flag).unwrap();
    assert_eq!(plain.0, ordered.0);
    let mut a = plain.1.clone();
    let mut o = ordered.1.clone();
    a.sort();
    o.sort();
    assert_eq!(a, o, "the same set of best moves");
}

#[test]
fn king_moves_in_all_four_directions() {
    let b = board_with(&[
        (2, 2, king(Player::White)),
        (7, 7, king(Player::Black)),
    ]);
    let moves = b.possible_moves();
    let mine: Vec<&Move> = moves.iter().filter(|m| m[0] == (2, 2)).collect();
    assert_eq!(mine.len(), 4);
}

#[test]
fn man_only_moves_forward() {
    let b = board_with(&[
        (2, 2, man(Player::White)),
        (7, 7, king(Player::Black)),
    ]);
    let moves = b.possible_moves();
    let mine: Vec<&Move> = moves.iter().filter(|m| m[0] == (2, 2)).collect();
    assert_eq!(mine.len(), 2);
    for m in mine {
        assert_eq!(m[1].1, 3);
    }
}

#[test]
fn backward_capture_only_for_kings() {
    // A black man behind the white king: the king may jump backwards, a
    // man in the same spot may not.
    let with_king = board_with(&[
        (4, 4, king(Player::White)),
        (3, 3, man(Player::Black)),
        (7, 7, king(Player::Black)),
    ]);
    let jumps = with_king.possible_moves();
    assert_eq!(jumps.len(), 1);
    assert_eq!(jumps[0], vec![(4, 4), (2, 2)]);
    let with_man = board_with(&[
        (4, 4, man(Player::White)),
        (3, 3, man(Player::Black)),
        (7, 7, king(Player::Black)),
    ]);
    let steps = with_man.possible_moves();
    for m in &steps {
        assert!(m[1].1 >= m[0].1, "no backward move for a man");
    }
}

#[test]
fn get_win_status_continue_at_start() {
    let b = Board::new();
    assert_eq!(b.get_win_status(), WinStatus::Continue);
    assert!(!b.is_end_game());
}

#[test]
fn hash_covers_player_and_boards() {
    let b = Board::new();
    let h = b.hash();
    assert_eq!(
        h,
        BoardHash {
            white_to_move: true,
            white: 0x00000fff,
            black: 0xfff00000,
            king: 0,
        }
    );
}

#[test]
fn material_score_exact_values() {
    // One white man on his second row (100) against one black king in
    // the corner (200), full coefficients: (100 - 200) * 100 * 100.
    let b = board_with(&[
        (0, 2, man(Player::White)),
        (7, 7, king(Player::Black)),
    ]);
    assert_eq!(naive_score(&b), -1_000_000);
}

#[test]
fn stagnation_scales_the_score_down() {
    let mut b = board_with(&[
        (0, 2, man(Player::White)),
        (7, 7, king(Player::Black)),
    ]);
    b.moves_without_capture = 50;
    // The no-capture coefficient drops from 100 to 90 at fifty moves.
    assert_eq!(naive_score(&b), -900_000);
    b.moves_without_capture = 70;
    // And to 100 - 20 - 40 = 40 at seventy.
    assert_eq!(naive_score(&b), -400_000);
}

#[test]
fn won_position_scores_the_win() {
    // Black to move with no pieces left to move: White has won.
    let mut b = board_with(&[(0, 2, man(Player::White))]);
    b.current_player = Player::Black;
    assert_eq!(b.get_win_status(), WinStatus::Win(Player::White));
    assert_eq!(naive_score(&b), POS_INFINITY - 1);
}

#[test]
fn jump_into_promotion_row_ends_the_chain() {
    // A man jumping onto his last row stops there and promotes: men
    // cannot continue forward off the board.
    let mut b = board_with(&[
        (1, 5, man(Player::White)),
        (2, 6, man(Player::Black)),
        (6, 0, king(Player::Black)),
    ]);
    let moves = b.possible_moves();
    assert_eq!(moves.len(), 1);
    assert_eq!(moves[0], vec![(1, 5), (3, 7)]);
    b.play(&moves[0]);
    assert_eq!(b.get(3, 7), Some(king(Player::White)));
}

#[test]
fn king_jump_chain_can_bend_backwards() {
    // A king's chain turns: forward over one piece, then back down over
    // the next.
    let b = board_with(&[
        (2, 2, king(Player::White)),
        (3, 3, man(Player::Black)),
        (5, 3, man(Player::Black)),
        (0, 6, man(Player::Black)),
    ]);
    let moves = b.possible_moves();
    assert_eq!(moves.len(), 1);
    assert_eq!(moves[0], vec![(2, 2), (4, 4), (6, 2)]);
}

#[test]
fn whole_game_reaches_a_verdict() {
    // Engine against engine at shallow depth: the game ends in a win or
    // a draw, every move played is legal, and the rules engine never
    // gets stuck.
    let mut b = Board::new();
    let flag = CancelFlag::new();
    let e = NaiveEvaluator {};
    let mut plies = 0;
    loop {
        let status = b.get_win_status();
        let legal = b.possible_moves();
        assert_eq!(legal.is_empty(), status.is_end_game());
        if status.is_end_game() {
            assert!(status.is_draw() || status.is_win());
            break;
        }
        let (_score, best) = alpha_beta_list(&b, &e, 100, 1, 2, &flag).expect("not cancelled");
        assert!(!best.is_empty());
        let chosen = &best[0];
        assert!(legal.contains(chosen));
        b.play(chosen);
        plies += 1;
        assert!(plies <= 500, "the no-capture rule bounds every game");
    }
}
