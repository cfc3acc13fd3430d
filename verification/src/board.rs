//! The position model: three bitboards, the player to move, the
//! repetition table and the no-capture counter.
//!
//! Rules set: English draughts.

use vstd::prelude::*;
use crate::bitboard::{
    is_playable, lemma_bit_ops, lemma_sq_decompose, spec_get_bit, spec_is_playable,
    spec_move_direction, spec_set_bit, sq, BitBoard,
};
use crate::piece::Piece;
use crate::piece_type::PieceType;
use crate::player::Player;

verus! {

pub const BOARD_SIZE: i8 = 8;

pub const NB_PLAYERS_LINES: i8 = 3;

pub const MAX_BOARD_COUNT: i8 = 3;

pub const MAX_MOVES_WITHOUT_CAPTURE: i8 = 80;

/// Bits of the promotion row of White (`y = 7`).
pub const TOP_ROW_MASK: u32 = 0xf0000000;

/// Bits of the promotion row of Black (`y = 0`).
pub const BOTTOM_ROW_MASK: u32 = 0x0000000f;

/// A move: the squares a piece passes through, in order.  Two squares for
/// a simple step, two or more for a jump chain.
pub type Move = Vec<(i8, i8)>;

/// What the repetition table and the search cache key a position by:
/// the player to move and the three bitboards.
#[derive(Clone, Copy, Debug, PartialEq, Eq, Structural, Hash)]
pub struct BoardHash {
    pub white_to_move: bool,
    pub white: u32,
    pub black: u32,
    pub king: u32,
}

pub struct Board {
    pub white_bitboard: u32,
    pub black_bitboard: u32,
    pub king_bitboard: u32,
    pub current_player: Player,
    pub board_count: Vec<(BoardHash, i8)>,
    pub moves_without_capture: i8,
}

/// The mathematical value of a `Board`.
pub struct BoardView {
    pub white: u32,
    pub black: u32,
    pub king: u32,
    pub player: Player,
    pub table: Seq<(BoardHash, i8)>,
    pub mwc: i8,
}

impl View for Board {
    type V = BoardView;

    open spec fn view(&self) -> BoardView {
        BoardView {
            white: self.white_bitboard,
            black: self.black_bitboard,
            king: self.king_bitboard,
            player: self.current_player,
            table: self.board_count@,
            mwc: self.moves_without_capture,
        }
    }
}

// ---------------------------------------------------------------------
// The repetition table, an association list scanned front to back.
// ---------------------------------------------------------------------

pub open spec fn count_from(t: Seq<(BoardHash, i8)>, h: BoardHash, i: int) -> int
    decreases t.len() - i,
{
    if i < 0 || i >= t.len() {
        0
    } else if t[i].0 == h {
        t[i].1 as int
    } else {
        count_from(t, h, i + 1)
    }
}

/// How often the position `h` has occurred: the count of its first table
/// entry, or zero.
pub open spec fn spec_table_count(t: Seq<(BoardHash, i8)>, h: BoardHash) -> int {
    count_from(t, h, 0)
}

pub open spec fn incr_count(c: i8) -> i8 {
    if c < 3 {
        (c + 1) as i8
    } else {
        3
    }
}

/// The table after one more occurrence of `h`: the first entry for `h` is
/// raised (saturating at the draw threshold, past which every observation
/// of the table is the same), or a fresh entry is appended.
pub open spec fn table_incr(t: Seq<(BoardHash, i8)>, h: BoardHash) -> Seq<(BoardHash, i8)>
    decreases t.len(),
{
    if t.len() == 0 {
        seq![(h, 1i8)]
    } else if t[0].0 == h {
        t.update(0, (h, incr_count(t[0].1)))
    } else {
        seq![t[0]] + table_incr(t.drop_first(), h)
    }
}

pub open spec fn wf_table(t: Seq<(BoardHash, i8)>) -> bool {
    forall|i: int| 0 <= i < t.len() ==> 1 <= (#[trigger] t[i]).1 <= 3
}

proof fn lemma_table_incr_found(t: Seq<(BoardHash, i8)>, h: BoardHash, i: int)
    requires
        0 <= i < t.len(),
        t[i].0 == h,
        forall|j: int| 0 <= j < i ==> (#[trigger] t[j]).0 != h,
    ensures
        table_incr(t, h) =~= t.update(i, (h, incr_count(t[i].1))),
    decreases t.len(),
{
    if i == 0 {
    } else {
        lemma_table_incr_found(t.drop_first(), h, i - 1);
        assert forall|j: int| 0 <= j < i - 1 implies (#[trigger] t.drop_first()[j]).0 != h by {
            assert(t.drop_first()[j] == t[j + 1]);
        };
        assert(t.drop_first().update(i - 1, (h, incr_count(t[i].1))) =~= t.update(
            i,
            (h, incr_count(t[i].1)),
        ).drop_first());
    }
}

proof fn lemma_table_incr_absent(t: Seq<(BoardHash, i8)>, h: BoardHash)
    requires
        forall|j: int| 0 <= j < t.len() ==> (#[trigger] t[j]).0 != h,
    ensures
        table_incr(t, h) =~= t + seq![(h, 1i8)],
    decreases t.len(),
{
    if t.len() == 0 {
    } else {
        assert forall|j: int| 0 <= j < t.drop_first().len() implies (#[trigger] t.drop_first()[j]).0
            != h by {
            assert(t.drop_first()[j] == t[j + 1]);
        };
        lemma_table_incr_absent(t.drop_first(), h);
    }
}

proof fn lemma_count_from_range(t: Seq<(BoardHash, i8)>, h: BoardHash, i: int)
    requires
        wf_table(t),
    ensures
        0 <= count_from(t, h, i) <= 3,
    decreases t.len() - i,
{
    if i < 0 || i >= t.len() {
    } else if t[i].0 == h {
    } else {
        lemma_count_from_range(t, h, i + 1);
    }
}

/// A well-formed table records every position at most three times.
pub proof fn lemma_table_count_range(t: Seq<(BoardHash, i8)>, h: BoardHash)
    requires
        wf_table(t),
    ensures
        0 <= spec_table_count(t, h) <= 3,
{
    lemma_count_from_range(t, h, 0);
}

pub proof fn lemma_table_incr_wf(t: Seq<(BoardHash, i8)>, h: BoardHash)
    requires
        wf_table(t),
    ensures
        wf_table(table_incr(t, h)),
    decreases t.len(),
{
    if t.len() == 0 {
    } else if t[0].0 == h {
    } else {
        assert(wf_table(t.drop_first())) by {
            assert(forall|j: int| 0 <= j < t.drop_first().len() ==> (#[trigger] t.drop_first()[j])
                == t[j + 1]);
        };
        lemma_table_incr_wf(t.drop_first(), h);
        let r = seq![t[0]] + table_incr(t.drop_first(), h);
        assert forall|i: int| 0 <= i < r.len() implies 1 <= (#[trigger] r[i]).1 <= 3 by {
            if i > 0 {
                assert(r[i] == table_incr(t.drop_first(), h)[i - 1]);
            }
        };
    }
}

// ---------------------------------------------------------------------
// Spec-level reading and writing of squares.
// ---------------------------------------------------------------------

impl BoardView {
    pub open spec fn any(self) -> u32 {
        self.white | self.black
    }

    pub open spec fn player_bb(self) -> u32 {
        if self.player == Player::White {
            self.white
        } else {
            self.black
        }
    }

    pub open spec fn opponent_bb(self) -> u32 {
        if self.player == Player::White {
            self.black
        } else {
            self.white
        }
    }

    pub open spec fn hash(self) -> BoardHash {
        BoardHash {
            white_to_move: self.player == Player::White,
            white: self.white,
            black: self.black,
            king: self.king,
        }
    }

    pub open spec fn piece_at(self, x: int, y: int) -> Option<Piece> {
        if spec_is_playable(x, y) {
            let n = sq(x, y) as u32;
            if spec_get_bit(self.white, n) {
                Some(
                    Piece {
                        player: Player::White,
                        piece_type: if spec_get_bit(self.king, n) {
                            PieceType::King
                        } else {
                            PieceType::Man
                        },
                    },
                )
            } else if spec_get_bit(self.black, n) {
                Some(
                    Piece {
                        player: Player::Black,
                        piece_type: if spec_get_bit(self.king, n) {
                            PieceType::King
                        } else {
                            PieceType::Man
                        },
                    },
                )
            } else {
                None
            }
        } else {
            None
        }
    }

    /// The board with the square `(x, y)` overwritten.
    pub open spec fn with_square(self, x: int, y: int, p: Option<Piece>) -> BoardView {
        let n = sq(x, y) as u32;
        let is_white = p matches Some(q) && q.player == Player::White;
        let is_black = p matches Some(q) && q.player == Player::Black;
        let is_king = p matches Some(q) && q.piece_type == PieceType::King;
        BoardView {
            white: spec_set_bit(self.white, n, is_white),
            black: spec_set_bit(self.black, n, is_black),
            king: spec_set_bit(self.king, n, is_king),
            ..self
        }
    }

    /// The bitboards are disjoint and every king stands on an occupied
    /// square.  This much holds even of the scratch boards the jump
    /// explorer builds.
    pub open spec fn wf_boards(self) -> bool {
        &&& self.white & self.black == 0
        &&& self.king & !(self.white | self.black) == 0
    }

    /// A full position invariant: consistent bitboards, no unpromoted man
    /// on his promotion row, and counters in range.
    pub open spec fn wf(self) -> bool {
        &&& self.wf_boards()
        &&& self.white & !self.king & TOP_ROW_MASK == 0
        &&& self.black & !self.king & BOTTOM_ROW_MASK == 0
        &&& 0 <= self.mwc <= MAX_MOVES_WITHOUT_CAPTURE
        &&& wf_table(self.table)
    }

    pub open spec fn spec_count(self, h: BoardHash) -> int {
        spec_table_count(self.table, h)
    }

    pub open spec fn spec_is_draw(self) -> bool {
        self.spec_count(self.hash()) == MAX_BOARD_COUNT || self.mwc == MAX_MOVES_WITHOUT_CAPTURE
    }

    /// The squares holding exactly this kind of piece.
    pub open spec fn piece_bb(self, piece: Piece) -> u32 {
        (if piece.player == Player::White {
            self.white
        } else {
            self.black
        }) & (if piece.piece_type == PieceType::King {
            self.king
        } else {
            !self.king
        })
    }
}

// ---------------------------------------------------------------------
// Directions.
// ---------------------------------------------------------------------

pub open spec fn man_dirs(p: Player) -> Seq<(i8, i8)> {
    if p == Player::White {
        seq![(1i8, 1i8), (-1i8, 1i8)]
    } else {
        seq![(1i8, -1i8), (-1i8, -1i8)]
    }
}

pub open spec fn king_dirs() -> Seq<(i8, i8)> {
    seq![(1i8, 1i8), (-1i8, 1i8), (1i8, -1i8), (-1i8, -1i8)]
}

pub open spec fn spec_allowed_directions(p: Piece) -> Seq<(i8, i8)> {
    if p.piece_type == PieceType::King {
        king_dirs()
    } else {
        man_dirs(p.player)
    }
}

/// The directions a piece may move along.
pub fn allowed_directions(piece: Piece) -> (r: Vec<(i8, i8)>)
    ensures
        r@ == spec_allowed_directions(piece),
{
    let r: Vec<(i8, i8)> = if piece.is_king() {
        vec![(1, 1), (-1, 1), (1, -1), (-1, -1)]
    } else if piece.is_white() {
        vec![(1, 1), (-1, 1)]
    } else {
        vec![(1, -1), (-1, -1)]
    };
    proof {
        assert(r@ =~= spec_allowed_directions(piece));
    }
    r
}

// ---------------------------------------------------------------------
// Whole-board move and jump tests, as mask formulas.
// ---------------------------------------------------------------------

/// Squares a piece of `src` can step to along `(dx, dy)`: the shifted
/// word, restricted to empty squares.
pub open spec fn step_word(src: u32, any: u32, dx: int, dy: int) -> u32 {
    spec_move_direction(src, dx, dy) & !any
}

/// Landing squares of a jump by a piece of `src` over a piece of `opp`
/// along `(dx, dy)`.
pub open spec fn jump_word(src: u32, opp: u32, any: u32, dx: int, dy: int) -> u32 {
    spec_move_direction(spec_move_direction(src, dx, dy), dx, dy) & spec_move_direction(
        opp,
        dx,
        dy,
    ) & !any
}

pub open spec fn spec_can_move(v: BoardView) -> bool {
    let p = v.player_bb();
    let k = v.player_bb() & v.king;
    let a = v.any();
    let m0 = man_dirs(v.player)[0];
    let m1 = man_dirs(v.player)[1];
    ||| step_word(p, a, m0.0 as int, m0.1 as int) != 0
    ||| step_word(p, a, m1.0 as int, m1.1 as int) != 0
    ||| step_word(k, a, 1, 1) != 0
    ||| step_word(k, a, -1, 1) != 0
    ||| step_word(k, a, 1, -1) != 0
    ||| step_word(k, a, -1, -1) != 0
}

pub open spec fn spec_can_jump(v: BoardView) -> bool {
    let p = v.player_bb();
    let k = v.player_bb() & v.king;
    let o = v.opponent_bb();
    let a = v.any();
    let m0 = man_dirs(v.player)[0];
    let m1 = man_dirs(v.player)[1];
    ||| jump_word(p, o, a, m0.0 as int, m0.1 as int) != 0
    ||| jump_word(p, o, a, m1.0 as int, m1.1 as int) != 0
    ||| jump_word(k, o, a, 1, 1) != 0
    ||| jump_word(k, o, a, -1, 1) != 0
    ||| jump_word(k, o, a, 1, -1) != 0
    ||| jump_word(k, o, a, -1, -1) != 0
}

// ---------------------------------------------------------------------
// Pointwise consequences of the word-level invariants.
// ---------------------------------------------------------------------

proof fn lemma_zero_bit(n: u32)
    by (bit_vector)
    requires
        n < 32,
    ensures
        !spec_get_bit(0u32, n),
{
}

proof fn lemma_top_row_bit(n: u32)
    by (bit_vector)
    requires
        n < 32,
    ensures
        spec_get_bit(TOP_ROW_MASK, n) == (n >= 28),
        spec_get_bit(BOTTOM_ROW_MASK, n) == (n < 4),
{
}

/// What the word-level invariants say of one square.
pub proof fn lemma_wf_boards_at(v: BoardView, x: int, y: int)
    requires
        v.wf_boards(),
        spec_is_playable(x, y),
    ensures
        !(spec_get_bit(v.white, sq(x, y) as u32) && spec_get_bit(v.black, sq(x, y) as u32)),
        spec_get_bit(v.king, sq(x, y) as u32) ==> spec_get_bit(v.any(), sq(x, y) as u32),
{
    lemma_sq_decompose(x, y);
    let n = sq(x, y) as u32;
    lemma_zero_bit(n);
    lemma_bit_ops(v.white, v.black, n);
    lemma_bit_ops(v.king, !(v.white | v.black), n);
    lemma_bit_ops(v.white | v.black, v.white | v.black, n);
    assert(spec_get_bit(v.white & v.black, n) == spec_get_bit(0u32, n));
    assert(spec_get_bit(v.king & !(v.white | v.black), n) == spec_get_bit(0u32, n));
}

/// The standard starting position: three rows of white men at the bottom,
/// three rows of black men at the top, White to move, and one occurrence
/// of the position already on record.
pub open spec fn initial_board_view() -> BoardView {
    BoardView {
        white: 0x00000fffu32,
        black: 0xfff00000u32,
        king: 0u32,
        player: Player::White,
        table: seq![
            (
                BoardHash {
                    white_to_move: true,
                    white: 0x00000fffu32,
                    black: 0xfff00000u32,
                    king: 0u32,
                },
                1i8,
            ),
        ],
        mwc: 0i8,
    }
}

impl Board {
    pub fn new() -> (r: Board)
        ensures
            r@ == initial_board_view(),
            r@.wf(),
    {
        let mut board_count: Vec<(BoardHash, i8)> = Vec::new();
        board_count.push(
            (
                BoardHash {
                    white_to_move: true,
                    white: 0x00000fff,
                    black: 0xfff00000,
                    king: 0,
                },
                1,
            ),
        );
        let b = Board {
            white_bitboard: 0x00000fff,
            black_bitboard: 0xfff00000,
            king_bitboard: 0,
            current_player: Player::White,
            board_count,
            moves_without_capture: 0,
        };
        proof {
            assert(b@.table =~= initial_board_view().table);
            assert(0x00000fffu32 & 0xfff00000u32 == 0) by (bit_vector);
            assert(0u32 & !(0x00000fffu32 | 0xfff00000u32) == 0) by (bit_vector);
            assert(0x00000fffu32 & !0u32 & TOP_ROW_MASK == 0) by (bit_vector);
            assert(0xfff00000u32 & !0u32 & BOTTOM_ROW_MASK == 0) by (bit_vector);
        }
        b
    }

    pub fn get_white_bitboard(&self) -> (r: u32)
        ensures
            r == self@.white,
    {
        self.white_bitboard
    }

    pub fn get_black_bitboard(&self) -> (r: u32)
        ensures
            r == self@.black,
    {
        self.black_bitboard
    }

    pub fn get_king_bitboard(&self) -> (r: u32)
        ensures
            r == self@.king,
    {
        self.king_bitboard
    }

    pub fn get_player_bitboard(&self, player: Player) -> (r: u32)
        ensures
            r == (if player == Player::White {
                self@.white
            } else {
                self@.black
            }),
    {
        if player.is_white() {
            self.white_bitboard
        } else {
            self.black_bitboard
        }
    }

    pub fn get_any_bitboard(&self) -> (r: u32)
        ensures
            r == self@.any(),
    {
        self.white_bitboard | self.black_bitboard
    }

    /// The squares holding exactly this kind of piece.
    pub fn get_bitboard(&self, piece: Piece) -> (r: u32)
        ensures
            r == self@.piece_bb(piece),
    {
        let player_bitboard = self.get_player_bitboard(piece.get_player());
        let piece_type_bitboard = if piece.get_piece_type().is_king() {
            self.king_bitboard
        } else {
            !self.king_bitboard
        };
        player_bitboard & piece_type_bitboard
    }

    pub fn hash(&self) -> (r: BoardHash)
        ensures
            r == self@.hash(),
    {
        BoardHash {
            white_to_move: self.get_player_is_white(),
            white: self.white_bitboard,
            black: self.black_bitboard,
            king: self.king_bitboard,
        }
    }

    pub fn get(&self, x: i8, y: i8) -> (r: Option<Piece>)
        requires
            spec_is_playable(x as int, y as int),
            self@.wf_boards(),
        ensures
            r == self@.piece_at(x as int, y as int),
    {
        let is_white = self.white_bitboard.is_some(x, y);
        let is_black = self.black_bitboard.is_some(x, y);
        let is_king = self.king_bitboard.is_some(x, y);
        proof {
            lemma_wf_boards_at(self@, x as int, y as int);
            lemma_bit_ops(self@.white, self@.black, sq(x as int, y as int) as u32);
        }
        if is_white || is_black {
            Some(
                Piece::from(
                    if is_white {
                        Player::White
                    } else {
                        Player::Black
                    },
                    if is_king {
                        PieceType::King
                    } else {
                        PieceType::Man
                    },
                ),
            )
        } else {
            None
        }
    }

    pub fn set(&mut self, x: i8, y: i8, piece_opt: Option<Piece>)
        requires
            spec_is_playable(x as int, y as int),
        ensures
            final(self)@ == old(self)@.with_square(x as int, y as int, piece_opt),
    {
        let is_white = if let Some(piece) = piece_opt {
            piece.is_white()
        } else {
            false
        };
        let is_black = if let Some(piece) = piece_opt {
            piece.is_black()
        } else {
            false
        };
        let is_king = if let Some(piece) = piece_opt {
            piece.is_king()
        } else {
            false
        };
        self.white_bitboard.set(x, y, is_white);
        self.black_bitboard.set(x, y, is_black);
        self.king_bitboard.set(x, y, is_king);
    }

    pub fn get_player(&self) -> (r: Player)
        ensures
            r == self@.player,
    {
        self.current_player
    }

    pub fn get_player_is_white(&self) -> (r: bool)
        ensures
            r == (self@.player == Player::White),
    {
        self.get_player().is_white()
    }

    pub(crate) fn switch_player(&mut self)
        ensures
            final(self)@ == (BoardView { player: old(self)@.player.spec_other(), ..old(self)@ }),
    {
        self.current_player = self.get_player().other();
    }

    pub fn get_board_count(&self) -> (r: i8)
        ensures
            r as int == self@.spec_count(self@.hash()),
    {
        let h = self.hash();
        let mut i: usize = 0;
        while i < self.board_count.len()
            invariant
                0 <= i <= self.board_count.len(),
                h == self@.hash(),
                count_from(self@.table, h, 0) == count_from(self@.table, h, i as int),
            decreases self.board_count.len() - i,
        {
            if self.board_count[i].0 == h {
                return self.board_count[i].1;
            }
            i += 1;
        }
        0
    }

    pub(crate) fn incr_board_count(&mut self)
        ensures
            final(self)@ == (BoardView {
                table: table_incr(old(self)@.table, old(self)@.hash()),
                ..old(self)@
            }),
    {
        let h = self.hash();
        let ghost t0 = self.board_count@;
        let mut i: usize = 0;
        while i < self.board_count.len()
            invariant
                0 <= i <= self.board_count.len(),
                h == self@.hash(),
                self.board_count@ == t0,
                self.white_bitboard == old(self).white_bitboard,
                self.black_bitboard == old(self).black_bitboard,
                self.king_bitboard == old(self).king_bitboard,
                self.current_player == old(self).current_player,
                self.moves_without_capture == old(self).moves_without_capture,
                t0 == old(self)@.table,
                forall|j: int| 0 <= j < i ==> (#[trigger] t0[j]).0 != h,
            decreases self.board_count.len() - i,
        {
            if self.board_count[i].0 == h {
                let c = self.board_count[i].1;
                let nc: i8 = if c < 3 {
                    c + 1
                } else {
                    3
                };
                self.board_count[i] = (h, nc);
                proof {
                    lemma_table_incr_found(t0, h, i as int);
                    assert(self.board_count@ =~= table_incr(t0, h));
                }
                return ;
            }
            i += 1;
        }
        self.board_count.push((h, 1));
        proof {
            lemma_table_incr_absent(t0, h);
            assert(self.board_count@ =~= table_incr(t0, h));
        }
    }

    pub(crate) fn reset_board_count(&mut self)
        ensures
            final(self)@ == (BoardView { table: Seq::empty(), ..old(self)@ }),
    {
        self.board_count.clear();
        proof {
            assert(self.board_count@ =~= Seq::<(BoardHash, i8)>::empty());
        }
    }

    pub fn get_moves_without_capture(&self) -> (r: i8)
        ensures
            r == self@.mwc,
    {
        self.moves_without_capture
    }

    pub(crate) fn incr_moves_without_capture(&mut self)
        requires
            old(self)@.mwc < MAX_MOVES_WITHOUT_CAPTURE,
        ensures
            final(self)@ == (BoardView { mwc: (old(self)@.mwc + 1) as i8, ..old(self)@ }),
    {
        self.moves_without_capture = self.moves_without_capture + 1;
    }

    pub(crate) fn reset_moves_without_capture(&mut self)
        ensures
            final(self)@ == (BoardView { mwc: 0i8, ..old(self)@ }),
    {
        self.moves_without_capture = 0;
    }

    pub fn is_draw(&self) -> (r: bool)
        ensures
            r == self@.spec_is_draw(),
    {
        self.get_board_count() == MAX_BOARD_COUNT || self.get_moves_without_capture()
            == MAX_MOVES_WITHOUT_CAPTURE
    }

    pub(crate) fn can_move(&self) -> (r: bool)
        ensures
            r == spec_can_move(self@),
    {
        let man_directions: Vec<(i8, i8)> = if self.get_player_is_white() {
            vec![(1, 1), (-1, 1)]
        } else {
            vec![(1, -1), (-1, -1)]
        };
        proof {
            assert(man_directions@ =~= man_dirs(self@.player));
        }
        let current_player = self.get_player();
        let player_bitboard = self.get_player_bitboard(current_player);
        let any_bitboard = self.get_any_bitboard();
        let d0 = man_directions[0];
        let d1 = man_directions[1];
        if (player_bitboard.move_direction(&d0) & !any_bitboard) != 0 {
            return true;
        }
        if (player_bitboard.move_direction(&d1) & !any_bitboard) != 0 {
            return true;
        }
        let player_king_bitboard = player_bitboard & self.get_king_bitboard();
        if (player_king_bitboard.move_direction(&(1, 1)) & !any_bitboard) != 0 {
            return true;
        }
        if (player_king_bitboard.move_direction(&(-1, 1)) & !any_bitboard) != 0 {
            return true;
        }
        if (player_king_bitboard.move_direction(&(1, -1)) & !any_bitboard) != 0 {
            return true;
        }
        if (player_king_bitboard.move_direction(&(-1, -1)) & !any_bitboard) != 0 {
            return true;
        }
        false
    }

    pub(crate) fn can_jump(&self) -> (r: bool)
        ensures
            r == spec_can_jump(self@),
    {
        let man_directions: Vec<(i8, i8)> = if self.get_player_is_white() {
            vec![(1, 1), (-1, 1)]
        } else {
            vec![(1, -1), (-1, -1)]
        };
        proof {
            assert(man_directions@ =~= man_dirs(self@.player));
        }
        let current_player = self.get_player();
        let player_bitboard = self.get_player_bitboard(current_player);
        let opponent_bitboard = self.get_player_bitboard(current_player.other());
        let any_bitboard = self.get_any_bitboard();
        let d0 = man_directions[0];
        let d1 = man_directions[1];
        if (player_bitboard.move_direction(&d0).move_direction(&d0) & opponent_bitboard
            .move_direction(&d0) & !any_bitboard) != 0 {
            return true;
        }
        if (player_bitboard.move_direction(&d1).move_direction(&d1) & opponent_bitboard
            .move_direction(&d1) & !any_bitboard) != 0 {
            return true;
        }
        let player_king_bitboard = player_bitboard & self.get_king_bitboard();
        if (player_king_bitboard.move_direction(&(1, 1)).move_direction(&(1, 1))
            & opponent_bitboard.move_direction(&(1, 1)) & !any_bitboard) != 0 {
            return true;
        }
        if (player_king_bitboard.move_direction(&(-1, 1)).move_direction(&(-1, 1))
            & opponent_bitboard.move_direction(&(-1, 1)) & !any_bitboard) != 0 {
            return true;
        }
        if (player_king_bitboard.move_direction(&(1, -1)).move_direction(&(1, -1))
            & opponent_bitboard.move_direction(&(1, -1)) & !any_bitboard) != 0 {
            return true;
        }
        if (player_king_bitboard.move_direction(&(-1, -1)).move_direction(&(-1, -1))
            & opponent_bitboard.move_direction(&(-1, -1)) & !any_bitboard) != 0 {
            return true;
        }
        false
    }
}

/// The outcome a position reports: drawn by repetition or stagnation,
/// lost by the mover having no move, or still open.
pub open spec fn spec_win_status(v: BoardView) -> crate::win_status::WinStatus {
    if v.spec_is_draw() {
        crate::win_status::WinStatus::Draw
    } else if !(spec_can_move(v) || spec_can_jump(v)) {
        crate::win_status::WinStatus::Win(v.player.spec_other())
    } else {
        crate::win_status::WinStatus::Continue
    }
}

pub open spec fn spec_is_end(v: BoardView) -> bool {
    spec_win_status(v) != crate::win_status::WinStatus::Continue
}

impl Board {
    pub fn get_win_status(&self) -> (r: crate::win_status::WinStatus)
        ensures
            r == spec_win_status(self@),
    {
        if self.is_draw() {
            crate::win_status::WinStatus::Draw
        } else if !(self.can_move() || self.can_jump()) {
            crate::win_status::WinStatus::Win(self.get_player().other())
        } else {
            crate::win_status::WinStatus::Continue
        }
    }

    pub fn is_end_game(&self) -> (r: bool)
        ensures
            r == spec_is_end(self@),
    {
        self.get_win_status().is_end_game()
    }
}

fn clone_table(t: &Vec<(BoardHash, i8)>) -> (r: Vec<(BoardHash, i8)>)
    ensures
        r@ == t@,
{
    let mut r: Vec<(BoardHash, i8)> = Vec::new();
    let mut i: usize = 0;
    while i < t.len()
        invariant
            0 <= i <= t@.len(),
            r@ =~= t@.take(i as int),
        decreases t@.len() - i,
    {
        r.push(t[i]);
        i += 1;
    }
    proof {
        assert(t@.take(t@.len() as int) =~= t@);
    }
    r
}

impl Clone for Board {
    /// An exact copy: the clone has the same value as the original.
    fn clone(&self) -> (r: Board)
        ensures
            r@ == self@,
    {
        Board {
            white_bitboard: self.white_bitboard,
            black_bitboard: self.black_bitboard,
            king_bitboard: self.king_bitboard,
            current_player: self.current_player,
            board_count: clone_table(&self.board_count),
            moves_without_capture: self.moves_without_capture,
        }
    }
}

/// A well-formed board has no man on his promotion row.
pub proof fn lemma_wf_promotion_rows(v: BoardView, x: int, y: int)
    requires
        v.wf(),
        spec_is_playable(x, y),
    ensures
        v.piece_at(x, y) matches Some(p) ==> !(p.player == Player::White && p.piece_type
            == PieceType::Man && y == 7),
        v.piece_at(x, y) matches Some(p) ==> !(p.player == Player::Black && p.piece_type
            == PieceType::Man && y == 0),
{
    lemma_sq_decompose(x, y);
    let n = sq(x, y) as u32;
    lemma_zero_bit(n);
    lemma_top_row_bit(n);
    lemma_bit_ops(v.white & !v.king, TOP_ROW_MASK, n);
    lemma_bit_ops(v.white, !v.king, n);
    lemma_bit_ops(v.black & !v.king, BOTTOM_ROW_MASK, n);
    lemma_bit_ops(v.black, !v.king, n);
    lemma_bit_ops(v.king, v.king, n);
    assert(spec_get_bit(v.white & !v.king & TOP_ROW_MASK, n) == spec_get_bit(0u32, n));
    assert(spec_get_bit(v.black & !v.king & BOTTOM_ROW_MASK, n) == spec_get_bit(0u32, n));
    if y == 7 {
        assert(n >= 28) by {
            assert(sq(x, 7) == 28 + x / 2);
        };
    }
    if y == 0 {
        assert(n < 4) by {
            assert(sq(x, 0) == x / 2);
        };
    }
}

} // verus!
