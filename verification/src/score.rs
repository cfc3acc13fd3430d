//! The material evaluator, and the evaluator capability the search
//! consumes.
//!
//! The score bounds are derived, not magic: no position's material value,
//! scaled by the draw and stagnation coefficients, can reach
//! `POS_INFINITY`, so the win scores and the search window sentinels are
//! safely outside every real evaluation.

use vstd::prelude::*;
use crate::board::{spec_win_status, Board, BoardView};
use crate::piece::Piece;
use crate::piece_type::PieceType;
use crate::player::Player;
use crate::win_status::WinStatus;

verus! {

pub const MAX_PIECE_SCORE: i64 = 1000;

pub const WHITE_SIGN: i64 = 1;

pub const BLACK_SIGN: i64 = -1;

pub const MAX_BOARD_COUNT_SCORE_COEF: i64 = 100;

pub const MAX_MOVES_WITHOUT_CAPTURE_SCORE_COEF: i64 = 100;

pub const MAX_SCORE_COEF: i64 = MAX_BOARD_COUNT_SCORE_COEF * MAX_MOVES_WITHOUT_CAPTURE_SCORE_COEF;

/// Twelve men per side at most a thousand points each.
pub const MAX_SCORE_WITHOUT_COEF: i64 = 12 * MAX_PIECE_SCORE;

pub const POS_INFINITY: i64 = MAX_SCORE_WITHOUT_COEF * MAX_SCORE_COEF + 1;

pub const NEG_INFINITY: i64 = -POS_INFINITY;

pub const WHITE_WIN: i64 = POS_INFINITY - 1;

pub const BLACK_WIN: i64 = -(POS_INFINITY - 1);

pub const DRAW_SCORE: i64 = 0;

/// The value of one piece on its square, White counting positive: men
/// gain as they near promotion, kings as they near the centre.
pub open spec fn spec_piece_score(piece: Piece, x: int, y: int) -> int {
    let sign: int = if piece.player == Player::White {
        1
    } else {
        -1
    };
    let yn: int = if piece.player == Player::White {
        y
    } else {
        7 - y
    };
    let value: int = if piece.piece_type == PieceType::King {
        let y_dist = if 7 - yn < yn {
            7 - yn
        } else {
            yn
        };
        let x_dist = if 7 - x < x {
            7 - x
        } else {
            x
        };
        let tot_dist = x_dist + y_dist;
        if tot_dist == 0 {
            200
        } else if tot_dist == 1 {
            210
        } else if tot_dist == 2 {
            225
        } else if tot_dist == 3 {
            250
        } else if tot_dist == 4 {
            275
        } else if tot_dist == 5 {
            290
        } else {
            300
        }
    } else {
        if yn <= 2 {
            100
        } else if yn == 3 {
            105
        } else if yn == 4 {
            112
        } else if yn == 5 {
            125
        } else if yn == 6 {
            150
        } else {
            0
        }
    };
    sign * value
}

pub fn piece_score(piece: Piece, x: i8, y: i8) -> (r: i64)
    requires
        0 <= x < 8,
        0 <= y < 8,
        !(piece.player == Player::White && piece.piece_type == PieceType::Man && y == 7),
        !(piece.player == Player::Black && piece.piece_type == PieceType::Man && y == 0),
    ensures
        r as int == spec_piece_score(piece, x as int, y as int),
        -300 <= r <= 300,
{
    let sign: i64 = if piece.is_white() {
        WHITE_SIGN
    } else {
        BLACK_SIGN
    };
    let yn: i8 = if piece.is_white() {
        y
    } else {
        7 - y
    };
    let value: i64 = if piece.is_king() {
        let y_dist = if 7 - yn < yn {
            7 - yn
        } else {
            yn
        };
        let x_dist = if 7 - x < x {
            7 - x
        } else {
            x
        };
        let tot_dist = x_dist + y_dist;
        if tot_dist == 0 {
            200
        } else if tot_dist == 1 {
            210
        } else if tot_dist == 2 {
            225
        } else if tot_dist == 3 {
            250
        } else if tot_dist == 4 {
            275
        } else if tot_dist == 5 {
            290
        } else {
            300
        }
    } else {
        if yn <= 2 {
            100
        } else if yn == 3 {
            105
        } else if yn == 4 {
            112
        } else if yn == 5 {
            125
        } else {
            150
        }
    };
    sign * value
}

/// The material sum over the squares from the `k`-th on, columns outer.
pub open spec fn score_sum(v: BoardView, k: int) -> int
    decreases 64 - k,
{
    if k < 0 || k >= 64 {
        0
    } else {
        let x = k / 8;
        let y = k % 8;
        (if crate::bitboard::spec_is_playable(x, y) {
            match v.piece_at(x, y) {
                Some(p) => spec_piece_score(p, x, y),
                None => 0,
            }
        } else {
            0
        }) + score_sum(v, k + 1)
    }
}

/// Each pair of squares in one column holds at most one playable square,
/// so the whole sum stays within twelve thousand points.
pub proof fn lemma_score_sum_bound(v: BoardView, k: int)
    requires
        0 <= k <= 64,
        k % 2 == 0,
    ensures
        -150 * (64 - k) <= score_sum(v, k) <= 150 * (64 - k),
    decreases 64 - k,
{
    if k < 64 {
        lemma_score_sum_bound(v, k + 2);
        let x = k / 8;
        let y = k % 8;
        let x2 = (k + 1) / 8;
        let y2 = (k + 1) % 8;
        assert(x2 == x && y2 == y + 1) by (nonlinear_arith)
            requires
                0 <= k < 64,
                k % 2 == 0,
                x == k / 8,
                y == k % 8,
                x2 == (k + 1) / 8,
                y2 == (k + 1) % 8,
        ;
        assert(!(crate::bitboard::spec_is_playable(x, y) && crate::bitboard::spec_is_playable(
            x2,
            y2,
        )));
        let t0: int = if crate::bitboard::spec_is_playable(x, y) {
            match v.piece_at(x, y) {
                Some(p) => spec_piece_score(p, x, y),
                None => 0,
            }
        } else {
            0
        };
        let t1: int = if crate::bitboard::spec_is_playable(x2, y2) {
            match v.piece_at(x2, y2) {
                Some(p) => spec_piece_score(p, x2, y2),
                None => 0,
            }
        } else {
            0
        };
        assert(-300 <= t0 <= 300 && -300 <= t1 <= 300);
        assert(t0 == 0 || t1 == 0);
        assert(score_sum(v, k + 1) == t1 + score_sum(v, k + 2));
        assert(score_sum(v, k) == t0 + score_sum(v, k + 1));
    }
}

pub open spec fn spec_coef_board_count(n: int) -> int {
    if n == 0 || n == 1 {
        100
    } else if n == 2 {
        75
    } else {
        0
    }
}

pub open spec fn spec_coef_moves_without_capture(n: int) -> int {
    if n <= 40 {
        100
    } else if n <= 60 {
        100 - (n - 40)
    } else if n <= 80 {
        80 - (n - 60) * 4
    } else {
        0
    }
}

fn coef_board_count(n: i8) -> (r: i64)
    requires
        0 <= n <= 3,
    ensures
        r as int == spec_coef_board_count(n as int),
        0 <= r <= 100,
{
    if n == 0 || n == 1 {
        MAX_BOARD_COUNT_SCORE_COEF * 1
    } else if n == 2 {
        MAX_BOARD_COUNT_SCORE_COEF * 3 / 4
    } else {
        MAX_BOARD_COUNT_SCORE_COEF * 0
    }
}

fn coef_moves_without_capture(n: i8) -> (r: i64)
    requires
        0 <= n <= 80,
    ensures
        r as int == spec_coef_moves_without_capture(n as int),
        0 <= r <= 100,
{
    let n64: i64 = n as i64;
    if n64 <= 40 {
        MAX_MOVES_WITHOUT_CAPTURE_SCORE_COEF * 1
    } else if n64 <= 60 {
        MAX_MOVES_WITHOUT_CAPTURE_SCORE_COEF * (100 - (n64 - 40) * 1) / 100
    } else {
        MAX_MOVES_WITHOUT_CAPTURE_SCORE_COEF * (100 - 20 - (n64 - 60) * 4) / 100
    }
}

/// The material score of a position, White's point of view: won and
/// drawn positions get their fixed scores, open positions the piece sum
/// scaled down as a draw comes near.
pub open spec fn spec_naive_score(v: BoardView) -> int {
    match spec_win_status(v) {
        WinStatus::Draw => 0,
        WinStatus::Win(p) => if p == Player::White {
            WHITE_WIN as int
        } else {
            BLACK_WIN as int
        },
        WinStatus::Continue => score_sum(v, 0) * spec_coef_board_count(
            v.spec_count(v.hash()),
        ) * spec_coef_moves_without_capture(v.mwc as int),
    }
}

pub fn naive_score(board: &Board) -> (r: i64)
    requires
        board@.wf(),
    ensures
        r as int == spec_naive_score(board@),
        -(POS_INFINITY - 1) <= r <= POS_INFINITY - 1,
{
    let ghost v = board@;
    let status = board.get_win_status();
    if status.is_draw() {
        return DRAW_SCORE;
    }
    match status.get_win() {
        Some(p) => {
            return if p.is_white() {
                WHITE_WIN
            } else {
                BLACK_WIN
            };
        },
        None => {},
    }
    let mut score: i64 = 0;
    let mut x: i8 = 0;
    while x < 8
        invariant
            0 <= x <= 8,
            v == board@,
            v.wf(),
            score as int + score_sum(v, 8 * (x as int)) == score_sum(v, 0),
            -300 * (8 * (x as int) + 0) <= score as int <= 300 * (8 * (x as int) + 0),
        decreases 8 - x,
    {
        let mut y: i8 = 0;
        while y < 8
            invariant
                0 <= x < 8,
                0 <= y <= 8,
                v == board@,
                v.wf(),
                score as int + score_sum(v, 8 * (x as int) + y) == score_sum(v, 0),
                -300 * (8 * (x as int) + y) <= score as int <= 300 * (8 * (x as int) + y),
            decreases 8 - y,
        {
            let ghost k = 8 * (x as int) + y;
            proof {
                assert(k / 8 == x as int && k % 8 == y as int) by (nonlinear_arith)
                    requires
                        k == 8 * (x as int) + y,
                        0 <= y < 8,
                        0 <= x < 8,
                ;
            }
            if crate::bitboard::is_playable(x, y) {
                match board.get(x, y) {
                    Some(piece) => {
                        proof {
                            crate::board::lemma_wf_promotion_rows(v, x as int, y as int);
                        }
                        score = score + piece_score(piece, x, y);
                    },
                    None => {},
                }
            }
            y += 1;
        }
        x += 1;
    }
    proof {
        lemma_score_sum_bound(v, 0);
        assert(score_sum(v, 64) == 0);
        assert(score as int == score_sum(v, 0));
    }
    proof {
        crate::board::lemma_table_count_range(v.table, v.hash());
    }
    let c1 = coef_board_count(board.get_board_count());
    let c2 = coef_moves_without_capture(board.get_moves_without_capture());
    proof {
        assert(-9600 <= score as int <= 9600);
        let sc = score as int;
        let gc1 = c1 as int;
        let gc2 = c2 as int;
        assert(-960000 <= sc * gc1 <= 960000 && -96000000 <= sc * gc1 * gc2 <= 96000000)
            by (nonlinear_arith)
            requires
                -9600 <= sc <= 9600,
                0 <= gc1 <= 100,
                0 <= gc2 <= 100,
        ;
    }
    score * c1 * c2
}

/// A scoring capability: a pure function from position to signed score,
/// the mover's point of view, always strictly inside the search window
/// sentinels.
pub trait Evaluator: Sized {
    spec fn spec_score(&self, v: BoardView) -> int;

    proof fn lemma_score_bounded(&self, v: BoardView)
        ensures
            -(POS_INFINITY - 1) <= self.spec_score(v) <= POS_INFINITY - 1,
    ;

    fn score(&self, board: &Board) -> (r: i64)
        requires
            board@.wf(),
        ensures
            r as int == self.spec_score(board@),
    ;
}

/// The built-in material evaluator.
pub struct NaiveEvaluator {
}

impl Evaluator for NaiveEvaluator {
    open spec fn spec_score(&self, v: BoardView) -> int {
        (if v.player == Player::White {
            1int
        } else {
            -1int
        }) * spec_naive_score(v)
    }

    proof fn lemma_score_bounded(&self, v: BoardView) {
        lemma_naive_score_bounded(v);
        if v.player == Player::White {
            assert(self.spec_score(v) == spec_naive_score(v));
        } else {
            assert(self.spec_score(v) == -spec_naive_score(v)) by {
                assert(-1int * spec_naive_score(v) == -spec_naive_score(v)) by (nonlinear_arith);
            };
        }
    }

    fn score(&self, board: &Board) -> (r: i64) {
        let s = naive_score(board);
        if board.get_player_is_white() {
            WHITE_SIGN * s
        } else {
            BLACK_SIGN * s
        }
    }
}

/// The material score never reaches the window sentinels.
pub proof fn lemma_naive_score_bounded(v: BoardView)
    ensures
        -(POS_INFINITY - 1) <= spec_naive_score(v) <= POS_INFINITY - 1,
{
    assert(POS_INFINITY == 120000001);
    assert(WHITE_WIN == 120000000);
    assert(BLACK_WIN == -120000000);
    match spec_win_status(v) {
        WinStatus::Draw => {
            assert(spec_naive_score(v) == 0);
        },
        WinStatus::Win(p) => {
            assert(spec_naive_score(v) == WHITE_WIN as int || spec_naive_score(v)
                == BLACK_WIN as int);
        },
        WinStatus::Continue => {
            lemma_score_sum_bound(v, 0);
            let s = score_sum(v, 0);
            let c1 = spec_coef_board_count(v.spec_count(v.hash()));
            let c2 = spec_coef_moves_without_capture(v.mwc as int);
            assert(0 <= c1 <= 100);
            assert(0 <= c2 <= 100);
            assert(-9600 <= s <= 9600);
            assert(-96000000 <= s * c1 * c2 <= 96000000) by (nonlinear_arith)
                requires
                    -9600 <= s <= 9600,
                    0 <= c1 <= 100,
                    0 <= c2 <= 100,
            ;
        },
    }
}

} // verus!
