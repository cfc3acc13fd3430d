//! The move generator: simple steps, or, when any capture exists,
//! maximal jump chains explored depth first with a checkpoint/restore
//! discipline on the three bitboards.

use vstd::prelude::*;
use crate::bitboard::{
    is_playable, lemma_bit_ops, lemma_set_bit, lemma_sq_range, lemma_word_nonzero,
    spec_get_bit, spec_is_playable, spec_set_bit, sq, BitBoard,
};
use crate::board::{
    man_dirs, spec_allowed_directions, spec_can_jump, spec_can_move, Board, BoardView,
};
use crate::move_sort::{sort_moves, sort_spec};
use crate::piece::Piece;
use crate::player::Player;

verus! {

// ---------------------------------------------------------------------
// Counting pieces, for termination of the jump exploration.
// ---------------------------------------------------------------------

/// How many of the bits below `n` are set.
pub open spec fn bits_below(w: u32, n: nat) -> nat
    decreases n,
{
    if n == 0 {
        0
    } else {
        bits_below(w, (n - 1) as nat) + if spec_get_bit(w, (n - 1) as u32) {
            1nat
        } else {
            0nat
        }
    }
}

/// The number of pieces the opponent of the mover has on the board.
pub open spec fn opp_count(v: BoardView) -> nat {
    bits_below(v.opponent_bb(), 32)
}

proof fn lemma_bits_below_update(w: u32, k: u32, v: bool, n: nat)
    requires
        k < 32,
        n <= 32,
    ensures
        k >= n ==> bits_below(spec_set_bit(w, k, v), n) == bits_below(w, n),
        k < n && spec_get_bit(w, k) == v ==> bits_below(spec_set_bit(w, k, v), n) == bits_below(
            w,
            n,
        ),
        k < n && !spec_get_bit(w, k) && v ==> bits_below(spec_set_bit(w, k, v), n) == bits_below(
            w,
            n,
        ) + 1,
        k < n && spec_get_bit(w, k) && !v ==> bits_below(spec_set_bit(w, k, v), n) + 1
            == bits_below(w, n),
    decreases n,
{
    if n > 0 {
        lemma_bits_below_update(w, k, v, (n - 1) as nat);
        lemma_set_bit(w, k, v, (n - 1) as u32);
    }
}

// ---------------------------------------------------------------------
// One jump, at the specification level.
// ---------------------------------------------------------------------

/// Can a piece on `(x, y)` jump along `(dx, dy)`: the landing square two
/// steps away exists and is empty, and an opposing piece stands between.
pub open spec fn jumpable(v: BoardView, x: int, y: int, dx: int, dy: int) -> bool {
    &&& spec_is_playable(x, y)
    &&& (dx == 1 || dx == -1)
    &&& (dy == 1 || dy == -1)
    &&& spec_is_playable(x + 2 * dx, y + 2 * dy)
    &&& !spec_get_bit(v.any(), sq(x + 2 * dx, y + 2 * dy) as u32)
    &&& spec_get_bit(v.opponent_bb(), sq(x + dx, y + dy) as u32)
}

/// Can a piece on `(x, y)` step to the empty square one step along
/// `(dx, dy)`.
pub open spec fn steppable(v: BoardView, x: int, y: int, dx: int, dy: int) -> bool {
    spec_is_playable(x + dx, y + dy) && !spec_get_bit(v.any(), sq(x + dx, y + dy) as u32)
}

/// The scratch board after one jump: the jumper leaves `(x, y)`, the
/// captured piece leaves the square between, the jumper lands two steps
/// away.
pub open spec fn apply_jump(v: BoardView, x: int, y: int, dx: int, dy: int) -> BoardView {
    let p = v.piece_at(x, y);
    v.with_square(x, y, None).with_square(x + dx, y + dy, None).with_square(
        x + 2 * dx,
        y + 2 * dy,
        p,
    )
}

/// The square between two playable squares two steps apart is playable.
pub proof fn lemma_midpoint_playable(x: int, y: int, dx: int, dy: int)
    requires
        spec_is_playable(x, y),
        spec_is_playable(x + 2 * dx, y + 2 * dy),
        dx == 1 || dx == -1,
        dy == 1 || dy == -1,
    ensures
        spec_is_playable(x + dx, y + dy),
{
    assert((x + dx + (y + dy)) % 2 == 0) by {
        assert(x + dx + (y + dy) == x + y + (dx + dy));
        assert(dx + dy == 2 || dx + dy == 0 || dx + dy == -2);
    };
}

/// The three squares a jump touches are distinct.
proof fn lemma_jump_squares_distinct(x: int, y: int, dx: int, dy: int)
    requires
        spec_is_playable(x, y),
        spec_is_playable(x + 2 * dx, y + 2 * dy),
        dx == 1 || dx == -1,
        dy == 1 || dy == -1,
    ensures
        sq(x, y) != sq(x + dx, y + dy),
        sq(x, y) != sq(x + 2 * dx, y + 2 * dy),
        sq(x + dx, y + dy) != sq(x + 2 * dx, y + 2 * dy),
{
    lemma_midpoint_playable(x, y, dx, dy);
    lemma_sq_range(x, y);
    lemma_sq_range(x + dx, y + dy);
    lemma_sq_range(x + 2 * dx, y + 2 * dy);
}

/// A jump captures one opposing piece: the opponent of the mover has
/// strictly fewer pieces on the scratch board.
pub proof fn lemma_apply_jump_opp_count(v: BoardView, x: int, y: int, dx: int, dy: int)
    requires
        jumpable(v, x, y, dx, dy),
    ensures
        opp_count(apply_jump(v, x, y, dx, dy)) < opp_count(v),
{
    let n0 = sq(x, y) as u32;
    let n2 = sq(x + dx, y + dy) as u32;
    let n3 = sq(x + 2 * dx, y + 2 * dy) as u32;
    lemma_jump_squares_distinct(x, y, dx, dy);
    lemma_midpoint_playable(x, y, dx, dy);
    lemma_sq_range(x, y);
    lemma_sq_range(x + dx, y + dy);
    lemma_sq_range(x + 2 * dx, y + 2 * dy);
    let w = v.opponent_bb();
    let v1 = v.with_square(x, y, None);
    let v2 = v1.with_square(x + dx, y + dy, None);
    let v3 = apply_jump(v, x, y, dx, dy);
    let p = v.piece_at(x, y);
    let w1 = v1.opponent_bb();
    let w2 = v2.opponent_bb();
    let w3 = v3.opponent_bb();
    assert(w1 == spec_set_bit(w, n0, false));
    assert(w2 == spec_set_bit(w1, n2, false));
    let p_opp = p matches Some(q) && q.player == v.player.spec_other();
    assert(w3 == spec_set_bit(w2, n3, p_opp));
    // The captured square still holds its piece on the intermediate board.
    lemma_set_bit(w, n0, false, n2);
    assert(spec_get_bit(w1, n2));
    lemma_bits_below_update(w, n0, false, 32);
    lemma_bits_below_update(w1, n2, false, 32);
    assert(bits_below(w2, 32) < bits_below(w1, 32));
    lemma_bits_below_update(w2, n3, p_opp, 32);
    if p_opp {
        // The jumper was an opposing piece, so clearing its origin also
        // lowered the count; landing it raises the count back by one.
        assert(spec_get_bit(w, n0)) by {
            lemma_bit_ops(v.white, v.black, n0);
        };
        assert(bits_below(w1, 32) + 1 == bits_below(w, 32));
    } else {
        assert(bits_below(w1, 32) <= bits_below(w, 32));
        // The landing square is empty, so the opponent word has no bit
        // there before or after.
        assert(!spec_get_bit(w2, n3)) by {
            lemma_bit_ops(v.white, v.black, n3);
            lemma_set_bit(w, n0, false, n3);
            lemma_set_bit(w1, n2, false, n3);
        };
    }
}

// ---------------------------------------------------------------------
// The chains a single piece can make.
// ---------------------------------------------------------------------

/// Prefix every chain with the square it starts from.
pub open spec fn prepend_all(x: int, y: int, cs: Seq<Seq<(i8, i8)>>) -> Seq<Seq<(i8, i8)>> {
    cs.map_values(|c: Seq<(i8, i8)>| seq![(x as i8, y as i8)] + c)
}

/// All maximal jump chains of the piece on `(x, y)`, trying the
/// directions from index `i` on.  Each chain lists the squares the piece
/// passes through, starting with `(x, y)`.
pub open spec fn gen_jumps(v: BoardView, dirs: Seq<(i8, i8)>, i: int, x: int, y: int) -> Seq<
    Seq<(i8, i8)>,
>
    decreases opp_count(v), dirs.len() - i,
    via gen_jumps_dec
{
    if i < 0 || i >= dirs.len() {
        Seq::empty()
    } else {
        let dx = dirs[i].0 as int;
        let dy = dirs[i].1 as int;
        let here = if jumpable(v, x, y, dx, dy) {
            let v2 = apply_jump(v, x, y, dx, dy);
            let further = gen_jumps(v2, dirs, 0, x + 2 * dx, y + 2 * dy);
            let tails = if further.len() == 0 {
                seq![seq![(((x + 2 * dx) as i8), ((y + 2 * dy) as i8))]]
            } else {
                further
            };
            prepend_all(x, y, tails)
        } else {
            Seq::empty()
        };
        here + gen_jumps(v, dirs, i + 1, x, y)
    }
}

#[via_fn]
proof fn gen_jumps_dec(v: BoardView, dirs: Seq<(i8, i8)>, i: int, x: int, y: int) {
    if 0 <= i < dirs.len() {
        let dx = dirs[i].0 as int;
        let dy = dirs[i].1 as int;
        if jumpable(v, x, y, dx, dy) {
            lemma_apply_jump_opp_count(v, x, y, dx, dy);
        }
    }
}

/// Overwriting a square cannot break the bitboard consistency.
pub proof fn lemma_with_square_wf_boards(v: BoardView, x: int, y: int, p: Option<Piece>)
    requires
        v.wf_boards(),
        spec_is_playable(x, y),
    ensures
        v.with_square(x, y, p).wf_boards(),
{
    lemma_sq_range(x, y);
    let n = sq(x, y) as u32;
    let v2 = v.with_square(x, y, p);
    let is_white = p matches Some(q) && q.player == Player::White;
    let is_black = p matches Some(q) && q.player == Player::Black;
    let is_king = p matches Some(q) && q.piece_type == crate::piece_type::PieceType::King;
    assert(v2.white & v2.black == 0) by {
        lemma_word_nonzero(v2.white & v2.black);
        if v2.white & v2.black != 0 {
            let k = choose|k: u32| k < 32 && spec_get_bit(v2.white & v2.black, k);
            lemma_bit_ops(v2.white, v2.black, k);
            lemma_set_bit(v.white, n, is_white, k);
            lemma_set_bit(v.black, n, is_black, k);
            if k != n {
                lemma_bit_ops(v.white, v.black, k);
                assert(!spec_get_bit(0u32, k)) by (bit_vector)
                    requires
                        k < 32,
                ;
            }
        }
    };
    assert(v2.king & !(v2.white | v2.black) == 0) by {
        lemma_word_nonzero(v2.king & !(v2.white | v2.black));
        if v2.king & !(v2.white | v2.black) != 0 {
            let k = choose|k: u32| k < 32 && spec_get_bit(v2.king & !(v2.white | v2.black), k);
            lemma_bit_ops(v2.king, !(v2.white | v2.black), k);
            lemma_bit_ops(v2.white | v2.black, v2.white | v2.black, k);
            lemma_bit_ops(v2.white, v2.black, k);
            lemma_set_bit(v.white, n, is_white, k);
            lemma_set_bit(v.black, n, is_black, k);
            lemma_set_bit(v.king, n, is_king, k);
            if k != n {
                lemma_bit_ops(v.king, !(v.white | v.black), k);
                lemma_bit_ops(v.white | v.black, v.white | v.black, k);
                lemma_bit_ops(v.white, v.black, k);
                assert(!spec_get_bit(0u32, k)) by (bit_vector)
                    requires
                        k < 32,
                ;
            }
        }
    };
}

/// Jump chains found from `(x, y)`, exploring depth first.  The board is
/// a scratchpad: the three bitboards are checkpointed before each jump
/// and restored after the recursion, so the caller gets it back unchanged.
#[verifier::rlimit(80)]
fn jump_chains(board: &mut Board, dirs: &Vec<(i8, i8)>, x: i8, y: i8) -> (r: Vec<crate::board::Move>)
    requires
        spec_is_playable(x as int, y as int),
        old(board)@.wf_boards(),
        forall|j: int|
            0 <= j < dirs@.len() ==> crate::bitboard::is_direction(#[trigger] dirs@[j]),
    ensures
        final(board)@ == old(board)@,
        r.deep_view() == gen_jumps(old(board)@, dirs@, 0, x as int, y as int),
    decreases opp_count(old(board)@),
{
    let ghost v0 = board@;
    let mut moves: Vec<crate::board::Move> = Vec::new();
    let mut i: usize = 0;
    proof {
        assert(moves.deep_view() =~= Seq::<Seq<(i8, i8)>>::empty());
        assert(moves.deep_view() + gen_jumps(v0, dirs@, 0, x as int, y as int) =~= gen_jumps(
            v0,
            dirs@,
            0,
            x as int,
            y as int,
        ));
    }
    while i < dirs.len()
        invariant
            0 <= i <= dirs@.len(),
            board@ == v0,
            v0 == old(board)@,
            v0.wf_boards(),
            spec_is_playable(x as int, y as int),
            forall|j: int|
                0 <= j < dirs@.len() ==> crate::bitboard::is_direction(#[trigger] dirs@[j]),
            moves.deep_view() + gen_jumps(v0, dirs@, i as int, x as int, y as int) == gen_jumps(
                v0,
                dirs@,
                0,
                x as int,
                y as int,
            ),
        decreases dirs@.len() - i,
    {
        let ghost mdone = moves.deep_view();
        let (dx, dy) = dirs[i];
        let x2 = x + dx;
        let y2 = y + dy;
        let x3 = x2 + dx;
        let y3 = y2 + dy;
        let ghost gdx = dx as int;
        let ghost gdy = dy as int;
        let ghost jmp = jumpable(v0, x as int, y as int, gdx, gdy);
        let mut took_jump = false;
        if is_playable(x3, y3) {
            if board.get_any_bitboard().is_none(x3, y3) {
                proof {
                    lemma_midpoint_playable(x as int, y as int, gdx, gdy);
                }
                let opp = board.get_player_bitboard(board.get_player().other());
                if opp.is_some(x2, y2) {
                    took_jump = true;
                    proof {
                        assert(jmp);
                    }
                    // Checkpoint the three bitboards.
                    let saved_white = board.white_bitboard;
                    let saved_black = board.black_bitboard;
                    let saved_king = board.king_bitboard;
                    let jumping_piece = board.get(x, y);
                    board.set(x, y, None);
                    board.set(x2, y2, None);
                    board.set(x3, y3, jumping_piece);
                    proof {
                        assert(board@ == apply_jump(v0, x as int, y as int, gdx, gdy));
                        lemma_apply_jump_opp_count(v0, x as int, y as int, gdx, gdy);
                        lemma_with_square_wf_boards(v0, x as int, y as int, None);
                        lemma_with_square_wf_boards(
                            v0.with_square(x as int, y as int, None),
                            x2 as int,
                            y2 as int,
                            None,
                        );
                        lemma_with_square_wf_boards(
                            v0.with_square(x as int, y as int, None).with_square(
                                x2 as int,
                                y2 as int,
                                None,
                            ),
                            x3 as int,
                            y3 as int,
                            v0.piece_at(x as int, y as int),
                        );
                    }
                    let further = jump_chains(board, dirs, x3, y3);
                    // Restore the checkpoint.
                    board.white_bitboard = saved_white;
                    board.black_bitboard = saved_black;
                    board.king_bitboard = saved_king;
                    proof {
                        assert(board@ == v0);
                    }
                    let ghost spec_further = gen_jumps(
                        apply_jump(v0, x as int, y as int, gdx, gdy),
                        dirs@,
                        0,
                        x3 as int,
                        y3 as int,
                    );
                    let tails: Vec<crate::board::Move> = if further.len() == 0 {
                        vec![vec![(x3, y3)]]
                    } else {
                        further
                    };
                    let ghost spec_tails: Seq<Seq<(i8, i8)>> = if spec_further.len() == 0 {
                        seq![seq![(x3, y3)]]
                    } else {
                        spec_further
                    };
                    proof {
                        if spec_further.len() == 0 {
                            assert(tails.deep_view() =~= spec_tails) by {
                                crate::move_sort::lemma_moves_deep_view(tails);
                                assert(tails@[0]@ =~= seq![(x3, y3)]);
                            };
                        }
                        assert(tails.deep_view() == spec_tails);
                    }
                    // Prefix each chain with this square and add it.
                    let mut j: usize = 0;
                    proof {
                        crate::move_sort::lemma_moves_deep_view(tails);
                        assert(moves.deep_view() =~= mdone + prepend_all(
                            x as int,
                            y as int,
                            spec_tails,
                        ).take(0));
                    }
                    while j < tails.len()
                        invariant
                            0 <= j <= tails@.len(),
                            tails.deep_view() == spec_tails,
                            tails.deep_view().len() == tails@.len(),
                            forall|q: int|
                                0 <= q < tails@.len() ==> #[trigger] tails.deep_view()[q]
                                    == tails@[q]@,
                            moves.deep_view() == mdone + prepend_all(
                                x as int,
                                y as int,
                                spec_tails,
                            ).take(j as int),
                        decreases tails@.len() - j,
                    {
                        let mut cc: crate::board::Move = Vec::new();
                        cc.push((x, y));
                        let t = &tails[j];
                        let mut q: usize = 0;
                        let tl = t.len();
                        while q < tl
                            invariant
                                0 <= q <= tl,
                                tl == t@.len(),
                                t@ == tails@[j as int]@,
                                cc@ =~= seq![(x, y)] + t@.take(q as int),
                            decreases tl - q,
                        {
                            cc.push(t[q]);
                            q += 1;
                        }
                        let ghost mprev = moves.deep_view();
                        moves.push(cc);
                        proof {
                            assert(cc@ =~= seq![(x, y)] + tails@[j as int]@);
                            crate::move_sort::lemma_move_deep_view(cc);
                            crate::move_sort::lemma_moves_deep_view(moves);
                            assert(moves.deep_view() =~= mprev.push(cc@)) by {
                                assert(moves@.len() == mprev.len() + 1);
                            };
                            assert(prepend_all(x as int, y as int, spec_tails)[j as int] == seq![
                                (x, y),
                            ] + spec_tails[j as int]);
                            assert(spec_tails[j as int] == tails@[j as int]@);
                            assert(moves.deep_view() =~= mdone + prepend_all(
                                x as int,
                                y as int,
                                spec_tails,
                            ).take(j + 1));
                        }
                        j += 1;
                    }
                    proof {
                        assert(prepend_all(x as int, y as int, spec_tails).take(
                            spec_tails.len() as int,
                        ) =~= prepend_all(x as int, y as int, spec_tails));
                        assert(moves.deep_view() == mdone + prepend_all(
                            x as int,
                            y as int,
                            spec_tails,
                        ));
                    }
                }
            }
        }
        proof {
            if !took_jump {
                assert(!jmp);
                assert(moves.deep_view() =~= mdone + Seq::<Seq<(i8, i8)>>::empty());
            }
            // One unfolding of the generator at direction `i`.
            let g_i = gen_jumps(v0, dirs@, i as int, x as int, y as int);
            let g_i1 = gen_jumps(v0, dirs@, i + 1, x as int, y as int);
            let here = if jmp {
                let v2 = apply_jump(v0, x as int, y as int, gdx, gdy);
                let further = gen_jumps(v2, dirs@, 0, x as int + 2 * gdx, y as int + 2 * gdy);
                let tails = if further.len() == 0 {
                    seq![seq![(((x as int + 2 * gdx) as i8), ((y as int + 2 * gdy) as i8))]]
                } else {
                    further
                };
                prepend_all(x as int, y as int, tails)
            } else {
                Seq::<Seq<(i8, i8)>>::empty()
            };
            assert(g_i == here + g_i1);
            assert(moves.deep_view() == mdone + here);
            assert(mdone + g_i == gen_jumps(v0, dirs@, 0, x as int, y as int));
            assert((mdone + here) + g_i1 =~= mdone + (here + g_i1));
        }
        i += 1;
    }
    proof {
        assert(gen_jumps(v0, dirs@, dirs@.len() as int, x as int, y as int) =~= Seq::<
            Seq<(i8, i8)>,
        >::empty());
        assert(moves.deep_view() + Seq::<Seq<(i8, i8)>>::empty() =~= moves.deep_view());
    }
    moves
}

/// All simple steps of the piece on `(x, y)`, trying the directions from
/// index `i` on.
pub open spec fn gen_steps(v: BoardView, dirs: Seq<(i8, i8)>, i: int, x: int, y: int) -> Seq<
    Seq<(i8, i8)>,
>
    decreases dirs.len() - i,
{
    if i < 0 || i >= dirs.len() {
        Seq::empty()
    } else {
        let dx = dirs[i].0 as int;
        let dy = dirs[i].1 as int;
        let here: Seq<Seq<(i8, i8)>> = if steppable(v, x, y, dx, dy) {
            seq![seq![(x as i8, y as i8), (((x + dx) as i8), ((y + dy) as i8))]]
        } else {
            Seq::empty()
        };
        here + gen_steps(v, dirs, i + 1, x, y)
    }
}

/// Simple steps found from `(x, y)`.
fn step_moves(board: &Board, dirs: &Vec<(i8, i8)>, x: i8, y: i8) -> (r: Vec<crate::board::Move>)
    requires
        spec_is_playable(x as int, y as int),
        forall|j: int|
            0 <= j < dirs@.len() ==> crate::bitboard::is_direction(#[trigger] dirs@[j]),
    ensures
        r.deep_view() == gen_steps(board@, dirs@, 0, x as int, y as int),
{
    let ghost v = board@;
    let mut moves: Vec<crate::board::Move> = Vec::new();
    let mut i: usize = 0;
    proof {
        assert(moves.deep_view() =~= Seq::<Seq<(i8, i8)>>::empty());
        assert(moves.deep_view() + gen_steps(v, dirs@, 0, x as int, y as int) =~= gen_steps(
            v,
            dirs@,
            0,
            x as int,
            y as int,
        ));
    }
    while i < dirs.len()
        invariant
            0 <= i <= dirs@.len(),
            v == board@,
            spec_is_playable(x as int, y as int),
            forall|j: int|
                0 <= j < dirs@.len() ==> crate::bitboard::is_direction(#[trigger] dirs@[j]),
            moves.deep_view() + gen_steps(v, dirs@, i as int, x as int, y as int) == gen_steps(
                v,
                dirs@,
                0,
                x as int,
                y as int,
            ),
        decreases dirs@.len() - i,
    {
        let ghost mdone = moves.deep_view();
        let (dx, dy) = dirs[i];
        let x2 = x + dx;
        let y2 = y + dy;
        let ghost stp = steppable(v, x as int, y as int, dx as int, dy as int);
        let mut took = false;
        if is_playable(x2, y2) {
            if board.get_any_bitboard().is_none(x2, y2) {
                took = true;
                let mut cc: crate::board::Move = Vec::new();
                cc.push((x, y));
                cc.push((x2, y2));
                let ghost mprev = moves.deep_view();
                moves.push(cc);
                proof {
                    assert(cc@ =~= seq![(x, y), (x2, y2)]);
                    crate::move_sort::lemma_move_deep_view(cc);
                    crate::move_sort::lemma_moves_deep_view(moves);
                    assert(moves.deep_view() =~= mprev.push(cc@)) by {
                        assert(moves@.len() == mprev.len() + 1);
                    };
                    assert(moves.deep_view() =~= mdone + seq![seq![(x, y), (x2, y2)]]);
                }
            }
        }
        proof {
            if !took {
                assert(!stp);
                assert(moves.deep_view() =~= mdone + Seq::<Seq<(i8, i8)>>::empty());
            }
            let g_i = gen_steps(v, dirs@, i as int, x as int, y as int);
            let g_i1 = gen_steps(v, dirs@, i + 1, x as int, y as int);
            let here: Seq<Seq<(i8, i8)>> = if stp {
                seq![seq![(x, y), (((x as int + dx) as i8), ((y as int + dy) as i8))]]
            } else {
                Seq::<Seq<(i8, i8)>>::empty()
            };
            assert(g_i == here + g_i1);
            assert(moves.deep_view() == mdone + here);
            assert((mdone + here) + g_i1 =~= mdone + (here + g_i1));
        }
        i += 1;
    }
    proof {
        assert(gen_steps(v, dirs@, dirs@.len() as int, x as int, y as int) =~= Seq::<
            Seq<(i8, i8)>,
        >::empty());
        assert(moves.deep_view() + Seq::<Seq<(i8, i8)>>::empty() =~= moves.deep_view());
    }
    moves
}

// ---------------------------------------------------------------------
// The whole board.
// ---------------------------------------------------------------------

/// The directions of the piece standing on `(x, y)`, none for an empty
/// square.
pub open spec fn piece_dirs(v: BoardView, x: int, y: int) -> Seq<(i8, i8)> {
    match v.piece_at(x, y) {
        Some(p) => spec_allowed_directions(p),
        None => Seq::empty(),
    }
}

/// The moves of the mover's piece on `(x, y)`: its jump chains when a
/// capture exists anywhere, its steps otherwise.
pub open spec fn gen_square(v: BoardView, cj: bool, x: int, y: int) -> Seq<Seq<(i8, i8)>> {
    if spec_is_playable(x, y) && spec_get_bit(v.player_bb(), sq(x, y) as u32) {
        if cj {
            gen_jumps(v, piece_dirs(v, x, y), 0, x, y)
        } else {
            gen_steps(v, piece_dirs(v, x, y), 0, x, y)
        }
    } else {
        Seq::empty()
    }
}

/// The moves of all squares from the `k`-th on, visited column by column.
pub open spec fn gen_all(v: BoardView, cj: bool, k: int) -> Seq<Seq<(i8, i8)>>
    decreases 64 - k,
{
    if k < 0 || k >= 64 {
        Seq::empty()
    } else {
        gen_square(v, cj, k / 8, k % 8) + gen_all(v, cj, k + 1)
    }
}

/// The generated moves, in exploration order: nothing on a drawn
/// position, else every mover's piece contributes its chains or steps.
pub open spec fn spec_moves_unsorted(v: BoardView) -> Seq<Seq<(i8, i8)>> {
    if v.spec_is_draw() {
        Seq::empty()
    } else {
        gen_all(v, spec_can_jump(v), 0)
    }
}

/// What `possible_moves` returns: the generated moves in lexicographic
/// order.
pub open spec fn spec_possible_moves(v: BoardView) -> Seq<Seq<(i8, i8)>> {
    sort_spec(spec_moves_unsorted(v))
}

/// The directions of a piece are unit diagonal steps.
pub proof fn lemma_allowed_directions_are_directions(p: Piece)
    ensures
        forall|j: int|
            0 <= j < spec_allowed_directions(p).len() ==> crate::bitboard::is_direction(
                #[trigger] spec_allowed_directions(p)[j],
            ),
{
    let ds = spec_allowed_directions(p);
    assert forall|j: int| 0 <= j < ds.len() implies crate::bitboard::is_direction(
        #[trigger] ds[j],
    ) by {
        if p.piece_type == crate::piece_type::PieceType::King {
            assert(ds == crate::board::king_dirs());
            assert(crate::bitboard::is_direction(crate::board::king_dirs()[j]));
        } else {
            assert(ds == man_dirs(p.player));
            assert(crate::bitboard::is_direction(man_dirs(p.player)[j]));
        }
    };
}

proof fn lemma_deep_view_concat(a: Vec<crate::board::Move>, b: Vec<crate::board::Move>, c: Vec<crate::board::Move>)
    requires
        c@ == a@ + b@,
    ensures
        c.deep_view() == a.deep_view() + b.deep_view(),
{
    crate::move_sort::lemma_moves_deep_view(a);
    crate::move_sort::lemma_moves_deep_view(b);
    crate::move_sort::lemma_moves_deep_view(c);
    assert(c.deep_view() =~= a.deep_view() + b.deep_view());
}

impl Board {
    /// Every legal move of the position, in lexicographic order.  Empty
    /// exactly on a drawn position or when the mover has no move.  When
    /// any capture exists, only maximal jump chains are returned: jumps
    /// are mandatory.
    pub fn possible_moves(&self) -> (r: Vec<crate::board::Move>)
        requires
            self@.wf(),
        ensures
            r.deep_view() == spec_possible_moves(self@),
    {
        let ghost v = self@;
        if self.is_draw() {
            let r: Vec<crate::board::Move> = Vec::new();
            proof {
                assert(r.deep_view() =~= Seq::<Seq<(i8, i8)>>::empty());
            }
            return r;
        }
        let mut board = self.clone();
        let can_jump = board.can_jump();
        let mut moves: Vec<crate::board::Move> = Vec::new();
        let mut x: i8 = 0;
        proof {
            assert(moves.deep_view() =~= Seq::<Seq<(i8, i8)>>::empty());
            assert(moves.deep_view() + gen_all(v, can_jump, 0) =~= gen_all(v, can_jump, 0));
        }
        while x < 8
            invariant
                0 <= x <= 8,
                board@ == v,
                v == self@,
                v.wf(),
                can_jump == spec_can_jump(v),
                moves.deep_view() + gen_all(v, can_jump, 8 * (x as int)) == gen_all(
                    v,
                    can_jump,
                    0,
                ),
            decreases 8 - x,
        {
            let mut y: i8 = 0;
            while y < 8
                invariant
                    0 <= x < 8,
                    0 <= y <= 8,
                    board@ == v,
                    v == self@,
                    v.wf(),
                    can_jump == spec_can_jump(v),
                    moves.deep_view() + gen_all(v, can_jump, 8 * (x as int) + y) == gen_all(
                        v,
                        can_jump,
                        0,
                    ),
                decreases 8 - y,
            {
                let ghost k = 8 * (x as int) + y;
                let ghost mdone = moves.deep_view();
                proof {
                    assert(k / 8 == x as int && k % 8 == y as int) by (nonlinear_arith)
                        requires
                            k == 8 * (x as int) + y,
                            0 <= y < 8,
                            0 <= x < 8,
                    ;
                }
                let mut took = false;
                if is_playable(x, y) {
                    let pb = board.get_player_bitboard(board.get_player());
                    if pb.is_some(x, y) {
                        took = true;
                        proof {
                            lemma_bit_ops(v.white, v.black, sq(x as int, y as int) as u32);
                        }
                        let piece = board.get(x, y).unwrap();
                        let dirs = allowed_directions_of(piece);
                        proof {
                            assert(piece_dirs(v, x as int, y as int) == dirs@);
                            lemma_allowed_directions_are_directions(piece);
                        }
                        if can_jump {
                            let mut chains = jump_chains(&mut board, &dirs, x, y);
                            let ghost ca = moves;
                            let ghost cb = chains;
                            moves.append(&mut chains);
                            proof {
                                lemma_deep_view_concat(ca, cb, moves);
                                assert(moves.deep_view() == mdone + gen_square(
                                    v,
                                    can_jump,
                                    x as int,
                                    y as int,
                                ));
                            }
                        } else {
                            let mut steps = step_moves(&board, &dirs, x, y);
                            let ghost ca = moves;
                            let ghost cb = steps;
                            moves.append(&mut steps);
                            proof {
                                lemma_deep_view_concat(ca, cb, moves);
                                assert(moves.deep_view() == mdone + gen_square(
                                    v,
                                    can_jump,
                                    x as int,
                                    y as int,
                                ));
                            }
                        }
                    }
                }
                proof {
                    if !took {
                        assert(gen_square(v, can_jump, k / 8, k % 8) =~= Seq::<
                            Seq<(i8, i8)>,
                        >::empty());
                        assert(moves.deep_view() =~= mdone + gen_square(v, can_jump, k / 8, k % 8));
                    }
                    assert(gen_all(v, can_jump, k) == gen_square(v, can_jump, k / 8, k % 8)
                        + gen_all(v, can_jump, k + 1));
                    assert((mdone + gen_square(v, can_jump, k / 8, k % 8)) + gen_all(
                        v,
                        can_jump,
                        k + 1,
                    ) =~= mdone + (gen_square(v, can_jump, k / 8, k % 8) + gen_all(
                        v,
                        can_jump,
                        k + 1,
                    )));
                }
                y += 1;
            }
            x += 1;
        }
        proof {
            assert(gen_all(v, can_jump, 64) =~= Seq::<Seq<(i8, i8)>>::empty());
            assert(moves.deep_view() + Seq::<Seq<(i8, i8)>>::empty() =~= moves.deep_view());
            assert(moves.deep_view() == spec_moves_unsorted(v));
        }
        sort_moves(moves)
    }
}

/// The directions a piece moves along, as a vector.
fn allowed_directions_of(piece: Piece) -> (r: Vec<(i8, i8)>)
    ensures
        r@ == spec_allowed_directions(piece),
{
    crate::board::allowed_directions(piece)
}

/// The piece encoded by each counter index.
pub open spec fn spec_unhash(k: int) -> Piece {
    if k == 0 {
        Piece { player: Player::White, piece_type: crate::piece_type::PieceType::Man }
    } else if k == 1 {
        Piece { player: Player::White, piece_type: crate::piece_type::PieceType::King }
    } else if k == 2 {
        Piece { player: Player::Black, piece_type: crate::piece_type::PieceType::Man }
    } else {
        Piece { player: Player::Black, piece_type: crate::piece_type::PieceType::King }
    }
}

impl Board {
    /// How many pieces of exactly this kind stand on the board.
    pub fn get_piece_counter(&self, piece: Piece) -> (r: u32)
        ensures
            r == bits_below(self@.piece_bb(piece), 32),
    {
        let bitboard = self.get_bitboard(piece);
        let mut count: u32 = 0;
        let mut n: usize = 0;
        while n < 32
            invariant
                0 <= n <= 32,
                bitboard == self@.piece_bb(piece),
                count == bits_below(bitboard, n as nat),
                count <= n,
            decreases 32 - n,
        {
            if bitboard.get_bit(n) {
                count = count + 1;
            }
            n += 1;
        }
        count
    }

    /// The four per-kind piece counts, indexed by `Piece::hash`.
    pub fn get_pieces_counter(&self) -> (r: Vec<i64>)
        ensures
            r@.len() == 4,
            forall|k: int|
                0 <= k < 4 ==> #[trigger] r@[k] == bits_below(
                    self@.piece_bb(spec_unhash(k)),
                    32,
                ) as i64,
    {
        let mut counter: Vec<i64> = Vec::new();
        let p0 = crate::piece::Piece::unhash(0);
        let p1 = crate::piece::Piece::unhash(1);
        let p2 = crate::piece::Piece::unhash(2);
        let p3 = crate::piece::Piece::unhash(3);
        proof {
            assert(p0 == spec_unhash(0) && p1 == spec_unhash(1) && p2 == spec_unhash(2) && p3
                == spec_unhash(3));
        }
        counter.push(self.get_piece_counter(p0) as i64);
        counter.push(self.get_piece_counter(p1) as i64);
        counter.push(self.get_piece_counter(p2) as i64);
        counter.push(self.get_piece_counter(p3) as i64);
        counter
    }
}

} // verus!
