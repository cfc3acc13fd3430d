//! What a generated move guarantees: a step move names an empty adjacent
//! square; a jump chain is stepwise coherent on the evolving board and
//! maximal at its end.

use vstd::prelude::*;
use crate::bitboard::{
    lemma_set_bit, lemma_set_bit_commute, lemma_sq_range, spec_is_playable, sq,
};
use crate::board::{spec_can_jump, spec_can_move, BoardView};
use crate::movegen::{
    apply_jump, gen_all, gen_jumps, gen_square, gen_steps, jumpable, lemma_apply_jump_opp_count,
    lemma_midpoint_playable, opp_count, piece_dirs, prepend_all, spec_moves_unsorted,
    spec_possible_moves, steppable,
};
use crate::bitboard::spec_get_bit;
use crate::move_sort::lemma_sort_membership;
use crate::piece::Piece;

verus! {

// ---------------------------------------------------------------------
// Reading and reordering square writes.
// ---------------------------------------------------------------------

/// Writing one square changes what is read there and nothing else.
pub proof fn lemma_with_square_read(
    v: BoardView,
    x: int,
    y: int,
    p: Option<Piece>,
    x2: int,
    y2: int,
)
    requires
        spec_is_playable(x, y),
        spec_is_playable(x2, y2),
    ensures
        v.with_square(x, y, p).piece_at(x2, y2) == (if x == x2 && y == y2 {
            p
        } else {
            v.piece_at(x2, y2)
        }),
{
    lemma_sq_range(x, y);
    lemma_sq_range(x2, y2);
    let n = sq(x, y) as u32;
    let m = sq(x2, y2) as u32;
    let is_white = p matches Some(q) && q.player == crate::player::Player::White;
    let is_black = p matches Some(q) && q.player == crate::player::Player::Black;
    let is_king = p matches Some(q) && q.piece_type == crate::piece_type::PieceType::King;
    lemma_set_bit(v.white, n, is_white, m);
    lemma_set_bit(v.black, n, is_black, m);
    lemma_set_bit(v.king, n, is_king, m);
    if x == x2 && y == y2 {
        match p {
            Some(q) => {
                assert(v.with_square(x, y, p).piece_at(x2, y2) == Some(
                    Piece { player: q.player, piece_type: q.piece_type },
                ));
                assert(Piece { player: q.player, piece_type: q.piece_type } == q);
            },
            None => {},
        }
    } else {
        assert(n != m);
    }
}

/// Writes to two different squares commute.
pub proof fn lemma_with_square_commute(
    v: BoardView,
    x1: int,
    y1: int,
    p1: Option<Piece>,
    x2: int,
    y2: int,
    p2: Option<Piece>,
)
    requires
        spec_is_playable(x1, y1),
        spec_is_playable(x2, y2),
        !(x1 == x2 && y1 == y2),
    ensures
        v.with_square(x1, y1, p1).with_square(x2, y2, p2) == v.with_square(x2, y2, p2).with_square(
            x1,
            y1,
            p1,
        ),
{
    lemma_sq_range(x1, y1);
    lemma_sq_range(x2, y2);
    let n1 = sq(x1, y1) as u32;
    let n2 = sq(x2, y2) as u32;
    assert(n1 != n2);
    let a1 = p1 matches Some(q) && q.player == crate::player::Player::White;
    let b1 = p1 matches Some(q) && q.player == crate::player::Player::Black;
    let k1 = p1 matches Some(q) && q.piece_type == crate::piece_type::PieceType::King;
    let a2 = p2 matches Some(q) && q.player == crate::player::Player::White;
    let b2 = p2 matches Some(q) && q.player == crate::player::Player::Black;
    let k2 = p2 matches Some(q) && q.piece_type == crate::piece_type::PieceType::King;
    lemma_set_bit_commute(v.white, n1, a1, n2, a2);
    lemma_set_bit_commute(v.black, n1, b1, n2, b2);
    lemma_set_bit_commute(v.king, n1, k1, n2, k2);
}

// ---------------------------------------------------------------------
// Valid chains.
// ---------------------------------------------------------------------

/// From index `i` on, the chain `c` is a coherent and maximal jump chain
/// on the evolving board `v`, for a piece moving along `dirs`: each hop
/// is a legal jump two squares along one of the directions, and from the
/// final square no further jump is possible.
pub open spec fn chain_from(v: BoardView, dirs: Seq<(i8, i8)>, c: Seq<(i8, i8)>, i: int) -> bool
    decreases c.len() - i,
{
    &&& 0 <= i < c.len()
    &&& spec_is_playable(c[i].0 as int, c[i].1 as int)
    &&& if i == c.len() - 1 {
        forall|j: int|
            0 <= j < dirs.len() ==> !jumpable(
                v,
                c[i].0 as int,
                c[i].1 as int,
                (#[trigger] dirs[j]).0 as int,
                dirs[j].1 as int,
            )
    } else {
        exists|j: int|
            0 <= j < dirs.len() && {
                let dx = (#[trigger] dirs[j]).0 as int;
                let dy = dirs[j].1 as int;
                &&& c[i + 1].0 as int == c[i].0 as int + 2 * dx
                &&& c[i + 1].1 as int == c[i].1 as int + 2 * dy
                &&& jumpable(v, c[i].0 as int, c[i].1 as int, dx, dy)
                &&& chain_from(
                    apply_jump(v, c[i].0 as int, c[i].1 as int, dx, dy),
                    dirs,
                    c,
                    i + 1,
                )
            }
    }
}

/// Prefixing a chain shifts its indices by one.
proof fn lemma_chain_shift(
    v: BoardView,
    dirs: Seq<(i8, i8)>,
    t: Seq<(i8, i8)>,
    c: Seq<(i8, i8)>,
    k: int,
    hd: (i8, i8),
)
    requires
        c == seq![hd] + t,
        chain_from(v, dirs, t, k),
    ensures
        chain_from(v, dirs, c, k + 1),
    decreases t.len() - k,
{
    assert(c[k + 1] == t[k]);
    if k == t.len() - 1 {
    } else {
        assert(c[k + 2] == t[k + 1]);
        let j = choose|j: int|
            0 <= j < dirs.len() && {
                let dx = (#[trigger] dirs[j]).0 as int;
                let dy = dirs[j].1 as int;
                &&& t[k + 1].0 as int == t[k].0 as int + 2 * dx
                &&& t[k + 1].1 as int == t[k].1 as int + 2 * dy
                &&& jumpable(v, t[k].0 as int, t[k].1 as int, dx, dy)
                &&& chain_from(apply_jump(v, t[k].0 as int, t[k].1 as int, dx, dy), dirs, t, k + 1)
            };
        let dx = dirs[j].0 as int;
        let dy = dirs[j].1 as int;
        lemma_chain_shift(apply_jump(v, t[k].0 as int, t[k].1 as int, dx, dy), dirs, t, c, k + 1, hd);
    }
}

/// If the generator finds no chain from a square, no direction offers a
/// jump there.
pub proof fn lemma_gen_jumps_empty(v: BoardView, dirs: Seq<(i8, i8)>, i: int, x: int, y: int)
    requires
        0 <= i,
        gen_jumps(v, dirs, i, x, y).len() == 0,
    ensures
        forall|j: int|
            i <= j < dirs.len() ==> !jumpable(
                v,
                x,
                y,
                (#[trigger] dirs[j]).0 as int,
                dirs[j].1 as int,
            ),
    decreases opp_count(v), dirs.len() - i,
{
    if i < dirs.len() {
        let dx = dirs[i].0 as int;
        let dy = dirs[i].1 as int;
        let rest = gen_jumps(v, dirs, i + 1, x, y);
        if jumpable(v, x, y, dx, dy) {
            let v2 = apply_jump(v, x, y, dx, dy);
            let further = gen_jumps(v2, dirs, 0, x + 2 * dx, y + 2 * dy);
            let tails: Seq<Seq<(i8, i8)>> = if further.len() == 0 {
                seq![seq![(((x + 2 * dx) as i8), ((y + 2 * dy) as i8))]]
            } else {
                further
            };
            assert(prepend_all(x, y, tails).len() == tails.len());
            assert(gen_jumps(v, dirs, i, x, y) == prepend_all(x, y, tails) + rest);
            assert(gen_jumps(v, dirs, i, x, y).len() >= tails.len());
            assert(false);
        }
        assert(gen_jumps(v, dirs, i, x, y) == Seq::<Seq<(i8, i8)>>::empty() + rest);
        assert(rest.len() == 0);
        lemma_gen_jumps_empty(v, dirs, i + 1, x, y);
        assert forall|j: int| i <= j < dirs.len() implies !jumpable(
            v,
            x,
            y,
            (#[trigger] dirs[j]).0 as int,
            dirs[j].1 as int,
        ) by {
            if j > i {
                assert(!jumpable(v, x, y, dirs[j].0 as int, dirs[j].1 as int));
            }
        };
    }
}

/// Every chain the generator returns starts at its square, has at least
/// one hop, and is a coherent, maximal jump chain.
pub proof fn lemma_gen_jumps_sound(
    v: BoardView,
    dirs: Seq<(i8, i8)>,
    i: int,
    x: int,
    y: int,
    c: Seq<(i8, i8)>,
)
    requires
        spec_is_playable(x, y),
        gen_jumps(v, dirs, i, x, y).contains(c),
    ensures
        c.len() >= 2,
        c[0] == (x as i8, y as i8),
        chain_from(v, dirs, c, 0),
    decreases opp_count(v), dirs.len() - i,
{
    let g = gen_jumps(v, dirs, i, x, y);
    let idx = choose|idx: int| 0 <= idx < g.len() && g[idx] == c;
    let dx = dirs[i].0 as int;
    let dy = dirs[i].1 as int;
    let here: Seq<Seq<(i8, i8)>> = if jumpable(v, x, y, dx, dy) {
        let v2 = apply_jump(v, x, y, dx, dy);
        let further = gen_jumps(v2, dirs, 0, x + 2 * dx, y + 2 * dy);
        let tails = if further.len() == 0 {
            seq![seq![(((x + 2 * dx) as i8), ((y + 2 * dy) as i8))]]
        } else {
            further
        };
        prepend_all(x, y, tails)
    } else {
        Seq::empty()
    };
    let rest = gen_jumps(v, dirs, i + 1, x, y);
    assert(g == here + rest);
    if idx >= here.len() {
        assert(rest[idx - here.len()] == c);
        assert(rest.contains(c));
        lemma_gen_jumps_sound(v, dirs, i + 1, x, y, c);
    } else {
        assert(jumpable(v, x, y, dx, dy));
        let v2 = apply_jump(v, x, y, dx, dy);
        let x3 = x + 2 * dx;
        let y3 = y + 2 * dy;
        let further = gen_jumps(v2, dirs, 0, x3, y3);
        let tails: Seq<Seq<(i8, i8)>> = if further.len() == 0 {
            seq![seq![((x3 as i8), (y3 as i8))]]
        } else {
            further
        };
        let t = tails[idx];
        assert(c == seq![(x as i8, y as i8)] + t);
        if further.len() == 0 {
            assert(t =~= seq![((x3 as i8), (y3 as i8))]);
            assert(c[0] == (x as i8, y as i8));
            assert(c[1] == ((x3 as i8), (y3 as i8)));
            assert(c.len() == 2);
            lemma_gen_jumps_empty(v2, dirs, 0, x3, y3);
            assert(chain_from(v2, dirs, c, 1));
            assert(chain_from(v, dirs, c, 0)) by {
                assert(0 <= i < dirs.len() && {
                    let ddx = dirs[i].0 as int;
                    let ddy = dirs[i].1 as int;
                    &&& c[1].0 as int == c[0].0 as int + 2 * ddx
                    &&& c[1].1 as int == c[0].1 as int + 2 * ddy
                    &&& jumpable(v, c[0].0 as int, c[0].1 as int, ddx, ddy)
                    &&& chain_from(apply_jump(v, c[0].0 as int, c[0].1 as int, ddx, ddy), dirs, c, 1)
                });
            };
        } else {
            assert(further.contains(t)) by {
                assert(further[idx] == t);
            };
            lemma_apply_jump_opp_count(v, x, y, dx, dy);
            lemma_gen_jumps_sound(v2, dirs, 0, x3, y3, t);
            lemma_chain_shift(v2, dirs, t, c, 0, (x as i8, y as i8));
            assert(c[1] == t[0]);
            assert(chain_from(v, dirs, c, 0)) by {
                assert(0 <= i < dirs.len() && {
                    let ddx = dirs[i].0 as int;
                    let ddy = dirs[i].1 as int;
                    &&& c[1].0 as int == c[0].0 as int + 2 * ddx
                    &&& c[1].1 as int == c[0].1 as int + 2 * ddy
                    &&& jumpable(v, c[0].0 as int, c[0].1 as int, ddx, ddy)
                    &&& chain_from(apply_jump(v, c[0].0 as int, c[0].1 as int, ddx, ddy), dirs, c, 1)
                });
            };
        }
    }
}

/// Every step the generator returns is a two-square move to an adjacent
/// empty square along one of the piece's directions.
pub proof fn lemma_gen_steps_sound(
    v: BoardView,
    dirs: Seq<(i8, i8)>,
    i: int,
    x: int,
    y: int,
    c: Seq<(i8, i8)>,
)
    requires
        spec_is_playable(x, y),
        gen_steps(v, dirs, i, x, y).contains(c),
    ensures
        c.len() == 2,
        c[0] == (x as i8, y as i8),
        exists|j: int|
            0 <= j < dirs.len() && {
                let dx = (#[trigger] dirs[j]).0 as int;
                let dy = dirs[j].1 as int;
                &&& c[1].0 as int == x + dx
                &&& c[1].1 as int == y + dy
                &&& steppable(v, x, y, dx, dy)
            },
    decreases dirs.len() - i,
{
    let g = gen_steps(v, dirs, i, x, y);
    let idx = choose|idx: int| 0 <= idx < g.len() && g[idx] == c;
    let dx = dirs[i].0 as int;
    let dy = dirs[i].1 as int;
    let here: Seq<Seq<(i8, i8)>> = if steppable(v, x, y, dx, dy) {
        seq![seq![(x as i8, y as i8), (((x + dx) as i8), ((y + dy) as i8))]]
    } else {
        Seq::empty()
    };
    let rest = gen_steps(v, dirs, i + 1, x, y);
    assert(g == here + rest);
    if idx >= here.len() {
        assert(rest[idx - here.len()] == c);
        assert(rest.contains(c));
        lemma_gen_steps_sound(v, dirs, i + 1, x, y, c);
    } else {
        assert(c == seq![(x as i8, y as i8), (((x + dx) as i8), ((y + dy) as i8))]);
        assert(c[1].0 as int == x + dx && c[1].1 as int == y + dy && steppable(v, x, y, dx, dy))
            by {
            assert(spec_is_playable(x + dx, y + dy));
        };
        assert(0 <= i < dirs.len() && {
            let ddx = dirs[i].0 as int;
            let ddy = dirs[i].1 as int;
            &&& c[1].0 as int == x + ddx
            &&& c[1].1 as int == y + ddy
            &&& steppable(v, x, y, ddx, ddy)
        });
    }
}

// ---------------------------------------------------------------------
// From a returned move back to the square it came from.
// ---------------------------------------------------------------------

/// The move `c` was generated for the mover's piece on `(x, y)`.
pub open spec fn from_square(v: BoardView, cj: bool, x: int, y: int, c: Seq<(i8, i8)>) -> bool {
    &&& spec_is_playable(x, y)
    &&& spec_get_bit(v.player_bb(), sq(x, y) as u32)
    &&& if cj {
        gen_jumps(v, piece_dirs(v, x, y), 0, x, y).contains(c)
    } else {
        gen_steps(v, piece_dirs(v, x, y), 0, x, y).contains(c)
    }
}

proof fn lemma_gen_all_member(v: BoardView, cj: bool, k: int, c: Seq<(i8, i8)>)
    requires
        gen_all(v, cj, k).contains(c),
    ensures
        exists|x: int, y: int| from_square(v, cj, x, y, c),
    decreases 64 - k,
{
    if k < 0 || k >= 64 {
        assert(false);
    } else {
        let here = gen_square(v, cj, k / 8, k % 8);
        let rest = gen_all(v, cj, k + 1);
        let idx = choose|idx: int| 0 <= idx < gen_all(v, cj, k).len() && gen_all(v, cj, k)[idx] == c;
        if idx < here.len() {
            assert(here[idx] == c);
            assert(here.contains(c));
            assert(here.len() > 0);
            assert(spec_is_playable(k / 8, k % 8) && spec_get_bit(
                v.player_bb(),
                sq(k / 8, k % 8) as u32,
            ));
            assert(from_square(v, cj, k / 8, k % 8, c));
        } else {
            assert(rest[idx - here.len()] == c);
            assert(rest.contains(c));
            lemma_gen_all_member(v, cj, k + 1, c);
        }
    }
}

/// Every move of `possible_moves` was generated at its first square, for
/// a piece of the mover.
pub proof fn lemma_possible_move_origin(v: BoardView, c: Seq<(i8, i8)>)
    requires
        spec_possible_moves(v).contains(c),
    ensures
        !v.spec_is_draw(),
        exists|x: int, y: int| from_square(v, spec_can_jump(v), x, y, c),
{
    lemma_sort_membership(spec_moves_unsorted(v), c);
    if v.spec_is_draw() {
        assert(spec_moves_unsorted(v).len() == 0);
        assert(false);
    }
    lemma_gen_all_member(v, spec_can_jump(v), 0, c);
}

/// A jump move: its first hop spans two rows.
pub open spec fn is_jump_move(c: Seq<(i8, i8)>) -> bool {
    c.len() >= 2 && (c[1].1 as int - c[0].1 as int == 2 || c[0].1 as int - c[1].1 as int == 2)
}

/// A step move: two squares, one row apart.
pub open spec fn is_step_move(c: Seq<(i8, i8)>) -> bool {
    c.len() == 2 && (c[1].1 as int - c[0].1 as int == 1 || c[0].1 as int - c[1].1 as int == 1)
}

/// The directions of a piece all span one row.
proof fn lemma_piece_dirs_unit(v: BoardView, x: int, y: int)
    ensures
        forall|j: int|
            0 <= j < piece_dirs(v, x, y).len() ==> ((#[trigger] piece_dirs(v, x, y)[j]).0 == 1
                || piece_dirs(v, x, y)[j].0 == -1) && (piece_dirs(v, x, y)[j].1 == 1 || piece_dirs(
                v,
                x,
                y,
            )[j].1 == -1),
{
    let ds = piece_dirs(v, x, y);
    assert forall|j: int| 0 <= j < ds.len() implies ((#[trigger] ds[j]).0 == 1 || ds[j].0 == -1)
        && (ds[j].1 == 1 || ds[j].1 == -1) by {
        match v.piece_at(x, y) {
            Some(p) => {
                if p.piece_type == crate::piece_type::PieceType::King {
                    assert(ds == crate::board::king_dirs());
                    assert((crate::board::king_dirs()[j].0 == 1 || crate::board::king_dirs()[j].0
                        == -1) && (crate::board::king_dirs()[j].1 == 1
                        || crate::board::king_dirs()[j].1 == -1));
                } else {
                    assert(ds == crate::board::man_dirs(p.player));
                    assert((crate::board::man_dirs(p.player)[j].0 == 1 || crate::board::man_dirs(
                        p.player,
                    )[j].0 == -1) && (crate::board::man_dirs(p.player)[j].1 == 1
                        || crate::board::man_dirs(p.player)[j].1 == -1));
                }
            },
            None => {
                assert(ds.len() == 0);
            },
        }
    };
}

/// Jumps are mandatory and exclusive: all returned moves are of one
/// kind.  When any capture exists every move is a jump chain, otherwise
/// every move is a single diagonal step.
pub proof fn lemma_moves_uniform_kind(v: BoardView)
    ensures
        spec_can_jump(v) ==> forall|c: Seq<(i8, i8)>|
            #[trigger] spec_possible_moves(v).contains(c) ==> is_jump_move(c),
        !spec_can_jump(v) ==> forall|c: Seq<(i8, i8)>|
            #[trigger] spec_possible_moves(v).contains(c) ==> is_step_move(c),
{
    if spec_can_jump(v) {
        assert forall|c: Seq<(i8, i8)>| #[trigger] spec_possible_moves(v).contains(c)
            implies is_jump_move(c) by {
            lemma_possible_move_origin(v, c);
            let (x, y) = choose|x: int, y: int| from_square(v, true, x, y, c);
            lemma_gen_jumps_sound(v, piece_dirs(v, x, y), 0, x, y, c);
            lemma_piece_dirs_unit(v, x, y);
            assert(chain_from(v, piece_dirs(v, x, y), c, 0));
        };
    } else {
        assert forall|c: Seq<(i8, i8)>| #[trigger] spec_possible_moves(v).contains(c)
            implies is_step_move(c) by {
            lemma_possible_move_origin(v, c);
            let (x, y) = choose|x: int, y: int| from_square(v, false, x, y, c);
            lemma_gen_steps_sound(v, piece_dirs(v, x, y), 0, x, y, c);
            lemma_piece_dirs_unit(v, x, y);
        };
    }
}

/// Every returned jump chain is maximal: it is a coherent chain of the
/// piece on its first square, and its final position admits no further
/// jump along that piece's directions.
pub proof fn lemma_jump_chains_maximal(v: BoardView, c: Seq<(i8, i8)>)
    requires
        spec_can_jump(v),
        spec_possible_moves(v).contains(c),
    ensures
        exists|x: int, y: int|
            {
                &&& #[trigger] from_square(v, true, x, y, c)
                &&& c[0] == (x as i8, y as i8)
                &&& chain_from(v, piece_dirs(v, x, y), c, 0)
            },
{
    lemma_possible_move_origin(v, c);
    let (x, y) = choose|x: int, y: int| from_square(v, true, x, y, c);
    lemma_gen_jumps_sound(v, piece_dirs(v, x, y), 0, x, y, c);
}

// ---------------------------------------------------------------------
// The whole-board mask tests agree with square-by-square inspection.
// ---------------------------------------------------------------------

/// The mover's piece on `(x, y)` has a jump.
pub open spec fn square_can_jump(v: BoardView, x: int, y: int) -> bool {
    &&& spec_is_playable(x, y)
    &&& v.piece_at(x, y) matches Some(p) && p.player == v.player
    &&& exists|j: int|
        0 <= j < piece_dirs(v, x, y).len() && jumpable(
            v,
            x,
            y,
            (#[trigger] piece_dirs(v, x, y)[j]).0 as int,
            piece_dirs(v, x, y)[j].1 as int,
        )
}

/// The mover's piece on `(x, y)` has a step.
pub open spec fn square_can_step(v: BoardView, x: int, y: int) -> bool {
    &&& spec_is_playable(x, y)
    &&& v.piece_at(x, y) matches Some(p) && p.player == v.player
    &&& exists|j: int|
        0 <= j < piece_dirs(v, x, y).len() && steppable(
            v,
            x,
            y,
            (#[trigger] piece_dirs(v, x, y)[j]).0 as int,
            piece_dirs(v, x, y)[j].1 as int,
        )
}

/// The bit of a jump word at a landing square reads as: an attacker two
/// squares back, a victim between, the landing empty.
proof fn lemma_jump_word_bit(src: u32, opp: u32, any: u32, dx: int, dy: int, x: int, y: int)
    requires
        spec_is_playable(x, y),
        dx == 1 || dx == -1,
        dy == 1 || dy == -1,
    ensures
        spec_get_bit(crate::board::jump_word(src, opp, any, dx, dy), sq(x, y) as u32) == ({
            &&& spec_is_playable(x - 2 * dx, y - 2 * dy)
            &&& spec_get_bit(src, sq(x - 2 * dx, y - 2 * dy) as u32)
            &&& spec_get_bit(opp, sq(x - dx, y - dy) as u32)
            &&& !spec_get_bit(any, sq(x, y) as u32)
        }),
{
    let n = sq(x, y) as u32;
    let w1 = crate::bitboard::spec_move_direction(src, dx, dy);
    let w2 = crate::bitboard::spec_move_direction(w1, dx, dy);
    let wo = crate::bitboard::spec_move_direction(opp, dx, dy);
    crate::bitboard::lemma_move_direction_bit(w1, x, y, dx, dy);
    crate::bitboard::lemma_move_direction_bit(opp, x, y, dx, dy);
    crate::bitboard::lemma_bit_ops(w2 & wo, !any, n);
    crate::bitboard::lemma_bit_ops(w2, wo, n);
    crate::bitboard::lemma_bit_ops(any, any, n);
    if spec_is_playable(x - dx, y - dy) {
        crate::bitboard::lemma_move_direction_bit(src, x - dx, y - dy, dx, dy);
    }
}

/// Likewise for a step word.
proof fn lemma_step_word_bit(src: u32, any: u32, dx: int, dy: int, x: int, y: int)
    requires
        spec_is_playable(x, y),
        dx == 1 || dx == -1,
        dy == 1 || dy == -1,
    ensures
        spec_get_bit(crate::board::step_word(src, any, dx, dy), sq(x, y) as u32) == ({
            &&& spec_is_playable(x - dx, y - dy)
            &&& spec_get_bit(src, sq(x - dx, y - dy) as u32)
            &&& !spec_get_bit(any, sq(x, y) as u32)
        }),
{
    let n = sq(x, y) as u32;
    let w1 = crate::bitboard::spec_move_direction(src, dx, dy);
    crate::bitboard::lemma_move_direction_bit(src, x, y, dx, dy);
    crate::bitboard::lemma_bit_ops(w1, !any, n);
    crate::bitboard::lemma_bit_ops(any, any, n);
}

/// The jump mask for one direction is nonzero exactly when some piece of
/// `src` can jump an opposing piece along it.
proof fn lemma_jump_word_iff(v: BoardView, src: u32, dx: int, dy: int)
    requires
        dx == 1 || dx == -1,
        dy == 1 || dy == -1,
    ensures
        (crate::board::jump_word(src, v.opponent_bb(), v.any(), dx, dy) != 0) <==> exists|
            x: int,
            y: int,
        |
            spec_is_playable(x, y) && #[trigger] spec_get_bit(src, sq(x, y) as u32) && jumpable(
                v,
                x,
                y,
                dx,
                dy,
            ),
{
    let w = crate::board::jump_word(src, v.opponent_bb(), v.any(), dx, dy);
    crate::bitboard::lemma_word_nonzero(w);
    if w != 0 {
        let n = choose|n: u32| n < 32 && spec_get_bit(w, n);
        crate::bitboard::lemma_index_square(n as int);
        let lx = crate::bitboard::x_of(n as int);
        let ly = crate::bitboard::y_of(n as int);
        lemma_jump_word_bit(src, v.opponent_bb(), v.any(), dx, dy, lx, ly);
        let x = lx - 2 * dx;
        let y = ly - 2 * dy;
        lemma_midpoint_playable(x, y, dx, dy);
        assert(spec_is_playable(x, y) && spec_get_bit(src, sq(x, y) as u32) && jumpable(
            v,
            x,
            y,
            dx,
            dy,
        ));
    }
    if exists|x: int, y: int|
        spec_is_playable(x, y) && #[trigger] spec_get_bit(src, sq(x, y) as u32) && jumpable(
            v,
            x,
            y,
            dx,
            dy,
        ) {
        let (x, y) = choose|x: int, y: int|
            spec_is_playable(x, y) && #[trigger] spec_get_bit(src, sq(x, y) as u32) && jumpable(
                v,
                x,
                y,
                dx,
                dy,
            );
        let lx = x + 2 * dx;
        let ly = y + 2 * dy;
        lemma_jump_word_bit(src, v.opponent_bb(), v.any(), dx, dy, lx, ly);
        crate::bitboard::lemma_sq_range(lx, ly);
        crate::bitboard::lemma_word_nonzero(w);
        assert(spec_get_bit(w, sq(lx, ly) as u32));
    }
}

/// Likewise for the step mask.
proof fn lemma_step_word_iff(v: BoardView, src: u32, dx: int, dy: int)
    requires
        dx == 1 || dx == -1,
        dy == 1 || dy == -1,
    ensures
        (crate::board::step_word(src, v.any(), dx, dy) != 0) <==> exists|x: int, y: int|
            spec_is_playable(x, y) && #[trigger] spec_get_bit(src, sq(x, y) as u32) && steppable(
                v,
                x,
                y,
                dx,
                dy,
            ),
{
    let w = crate::board::step_word(src, v.any(), dx, dy);
    crate::bitboard::lemma_word_nonzero(w);
    if w != 0 {
        let n = choose|n: u32| n < 32 && spec_get_bit(w, n);
        crate::bitboard::lemma_index_square(n as int);
        let lx = crate::bitboard::x_of(n as int);
        let ly = crate::bitboard::y_of(n as int);
        lemma_step_word_bit(src, v.any(), dx, dy, lx, ly);
        let x = lx - dx;
        let y = ly - dy;
        assert(spec_is_playable(x, y) && spec_get_bit(src, sq(x, y) as u32) && steppable(
            v,
            x,
            y,
            dx,
            dy,
        ));
    }
    if exists|x: int, y: int|
        spec_is_playable(x, y) && #[trigger] spec_get_bit(src, sq(x, y) as u32) && steppable(
            v,
            x,
            y,
            dx,
            dy,
        ) {
        let (x, y) = choose|x: int, y: int|
            spec_is_playable(x, y) && #[trigger] spec_get_bit(src, sq(x, y) as u32) && steppable(
                v,
                x,
                y,
                dx,
                dy,
            );
        let lx = x + dx;
        let ly = y + dy;
        lemma_step_word_bit(src, v.any(), dx, dy, lx, ly);
        crate::bitboard::lemma_sq_range(lx, ly);
        crate::bitboard::lemma_word_nonzero(w);
        assert(spec_get_bit(w, sq(lx, ly) as u32));
    }
}

/// The whole-board jump test agrees with looking at every square.
pub proof fn lemma_can_jump_iff(v: BoardView)
    requires
        v.wf_boards(),
    ensures
        spec_can_jump(v) <==> exists|x: int, y: int| #[trigger] square_can_jump(v, x, y),
{
    let p = v.player_bb();
    let k = v.player_bb() & v.king;
    let m0 = crate::board::man_dirs(v.player)[0];
    let m1 = crate::board::man_dirs(v.player)[1];
    lemma_jump_word_iff(v, p, m0.0 as int, m0.1 as int);
    lemma_jump_word_iff(v, p, m1.0 as int, m1.1 as int);
    lemma_jump_word_iff(v, k, 1, 1);
    lemma_jump_word_iff(v, k, -1, 1);
    lemma_jump_word_iff(v, k, 1, -1);
    lemma_jump_word_iff(v, k, -1, -1);
    if spec_can_jump(v) {
        // Some mask is nonzero; its witness square carries the mover's
        // piece, whose directions include the witnessing one.
        {
            if crate::board::jump_word(p, v.opponent_bb(), v.any(), m0.0 as int, m0.1 as int)
                != 0 {
                let (x, y) = choose|x: int, y: int|
                    spec_is_playable(x, y) && #[trigger] spec_get_bit(p, sq(x, y) as u32)
                        && jumpable(v, x, y, m0.0 as int, m0.1 as int);
                lemma_player_bit_piece(v, x, y);
                lemma_man_dir_in_piece_dirs(v, x, y, 0);
                assert(square_can_jump(v, x, y));
            } else if crate::board::jump_word(p, v.opponent_bb(), v.any(), m1.0 as int, m1.1 as int)
                != 0 {
                let (x, y) = choose|x: int, y: int|
                    spec_is_playable(x, y) && #[trigger] spec_get_bit(p, sq(x, y) as u32)
                        && jumpable(v, x, y, m1.0 as int, m1.1 as int);
                lemma_player_bit_piece(v, x, y);
                lemma_man_dir_in_piece_dirs(v, x, y, 1);
                assert(square_can_jump(v, x, y));
            } else {
                let (dx, dy): (int, int) = if crate::board::jump_word(
                    k,
                    v.opponent_bb(),
                    v.any(),
                    1,
                    1,
                ) != 0 {
                    (1int, 1int)
                } else if crate::board::jump_word(k, v.opponent_bb(), v.any(), -1, 1) != 0 {
                    (-1int, 1int)
                } else if crate::board::jump_word(k, v.opponent_bb(), v.any(), 1, -1) != 0 {
                    (1int, -1int)
                } else {
                    (-1int, -1int)
                };
                lemma_jump_word_iff(v, k, dx, dy);
                let (x, y) = choose|x: int, y: int|
                    spec_is_playable(x, y) && #[trigger] spec_get_bit(k, sq(x, y) as u32)
                        && jumpable(v, x, y, dx, dy);
                crate::bitboard::lemma_bit_ops(p, v.king, sq(x, y) as u32);
                lemma_player_bit_piece(v, x, y);
                lemma_king_dir_in_piece_dirs(v, x, y, dx, dy);
                assert(square_can_jump(v, x, y));
            }
        }
        assert(exists|x: int, y: int| #[trigger] square_can_jump(v, x, y));
    }
    if exists|x: int, y: int| #[trigger] square_can_jump(v, x, y) {
        let (x, y) = choose|x: int, y: int| #[trigger] square_can_jump(v, x, y);
        let pc = v.piece_at(x, y)->Some_0;
        let ds = piece_dirs(v, x, y);
        let j = choose|j: int|
            0 <= j < ds.len() && jumpable(v, x, y, (#[trigger] ds[j]).0 as int, ds[j].1 as int);
        let dx = ds[j].0 as int;
        let dy = ds[j].1 as int;
        lemma_piece_bits(v, x, y);
        if pc.piece_type == crate::piece_type::PieceType::King {
            crate::bitboard::lemma_bit_ops(p, v.king, sq(x, y) as u32);
            lemma_jump_word_iff(v, k, dx, dy);
            assert(crate::board::king_dirs()[j] == ds[j]);
            assert(spec_can_jump(v));
        } else {
            assert(ds == crate::board::man_dirs(v.player));
            lemma_jump_word_iff(v, p, dx, dy);
            assert(ds[j] == m0 || ds[j] == m1);
            assert(spec_can_jump(v));
        }
    }
}

/// The whole-board step test agrees with looking at every square.
#[verifier::rlimit(100)]
pub proof fn lemma_can_move_iff(v: BoardView)
    requires
        v.wf_boards(),
    ensures
        spec_can_move(v) <==> exists|x: int, y: int| #[trigger] square_can_step(v, x, y),
{
    let p = v.player_bb();
    let k = v.player_bb() & v.king;
    let m0 = crate::board::man_dirs(v.player)[0];
    let m1 = crate::board::man_dirs(v.player)[1];
    lemma_step_word_iff(v, p, m0.0 as int, m0.1 as int);
    lemma_step_word_iff(v, p, m1.0 as int, m1.1 as int);
    lemma_step_word_iff(v, k, 1, 1);
    lemma_step_word_iff(v, k, -1, 1);
    lemma_step_word_iff(v, k, 1, -1);
    lemma_step_word_iff(v, k, -1, -1);
    if spec_can_move(v) {
        {
            if crate::board::step_word(p, v.any(), m0.0 as int, m0.1 as int) != 0 {
                let (x, y) = choose|x: int, y: int|
                    spec_is_playable(x, y) && #[trigger] spec_get_bit(p, sq(x, y) as u32)
                        && steppable(v, x, y, m0.0 as int, m0.1 as int);
                lemma_player_bit_piece(v, x, y);
                lemma_man_dir_in_piece_dirs(v, x, y, 0);
                assert(square_can_step(v, x, y));
            } else if crate::board::step_word(p, v.any(), m1.0 as int, m1.1 as int) != 0 {
                let (x, y) = choose|x: int, y: int|
                    spec_is_playable(x, y) && #[trigger] spec_get_bit(p, sq(x, y) as u32)
                        && steppable(v, x, y, m1.0 as int, m1.1 as int);
                lemma_player_bit_piece(v, x, y);
                lemma_man_dir_in_piece_dirs(v, x, y, 1);
                assert(square_can_step(v, x, y));
            } else {
                let (dx, dy): (int, int) = if crate::board::step_word(k, v.any(), 1, 1) != 0 {
                    (1int, 1int)
                } else if crate::board::step_word(k, v.any(), -1, 1) != 0 {
                    (-1int, 1int)
                } else if crate::board::step_word(k, v.any(), 1, -1) != 0 {
                    (1int, -1int)
                } else {
                    (-1int, -1int)
                };
                lemma_step_word_iff(v, k, dx, dy);
                let (x, y) = choose|x: int, y: int|
                    spec_is_playable(x, y) && #[trigger] spec_get_bit(k, sq(x, y) as u32)
                        && steppable(v, x, y, dx, dy);
                crate::bitboard::lemma_bit_ops(p, v.king, sq(x, y) as u32);
                lemma_player_bit_piece(v, x, y);
                lemma_king_dir_in_piece_dirs(v, x, y, dx, dy);
                assert(square_can_step(v, x, y));
            }
        }
        assert(exists|x: int, y: int| #[trigger] square_can_step(v, x, y));
    }
    if exists|x: int, y: int| #[trigger] square_can_step(v, x, y) {
        let (x, y) = choose|x: int, y: int| #[trigger] square_can_step(v, x, y);
        let pc = v.piece_at(x, y)->Some_0;
        let ds = piece_dirs(v, x, y);
        let j = choose|j: int|
            0 <= j < ds.len() && steppable(v, x, y, (#[trigger] ds[j]).0 as int, ds[j].1 as int);
        let dx = ds[j].0 as int;
        let dy = ds[j].1 as int;
        lemma_piece_bits(v, x, y);
        if pc.piece_type == crate::piece_type::PieceType::King {
            crate::bitboard::lemma_bit_ops(p, v.king, sq(x, y) as u32);
            lemma_step_word_iff(v, k, dx, dy);
            assert(crate::board::king_dirs()[j] == ds[j]);
            assert(spec_can_move(v));
        } else {
            assert(ds == crate::board::man_dirs(v.player));
            lemma_step_word_iff(v, p, dx, dy);
            assert(ds[j] == m0 || ds[j] == m1);
            assert(spec_can_move(v));
        }
    }
}

/// A set bit of the mover's board is a piece of the mover.
proof fn lemma_player_bit_piece(v: BoardView, x: int, y: int)
    requires
        v.wf_boards(),
        spec_is_playable(x, y),
        spec_get_bit(v.player_bb(), sq(x, y) as u32),
    ensures
        v.piece_at(x, y) matches Some(p) && p.player == v.player,
{
    crate::board::lemma_wf_boards_at(v, x, y);
}

/// A piece of the mover whose square's bit stands in the mover's board.
proof fn lemma_piece_bits(v: BoardView, x: int, y: int)
    requires
        spec_is_playable(x, y),
        v.piece_at(x, y) matches Some(p) && p.player == v.player,
    ensures
        spec_get_bit(v.player_bb(), sq(x, y) as u32),
        v.piece_at(x, y)->Some_0.piece_type == crate::piece_type::PieceType::King
            ==> spec_get_bit(v.king, sq(x, y) as u32),
        v.piece_at(x, y)->Some_0.piece_type == crate::piece_type::PieceType::Man
            ==> !spec_get_bit(v.king, sq(x, y) as u32),
{
}

/// A man's directions stand in the piece's direction list.
proof fn lemma_man_dir_in_piece_dirs(v: BoardView, x: int, y: int, j: int)
    requires
        0 <= j < 2,
        v.piece_at(x, y) matches Some(p) && p.player == v.player,
    ensures
        exists|i: int|
            0 <= i < piece_dirs(v, x, y).len() && #[trigger] piece_dirs(v, x, y)[i]
                == crate::board::man_dirs(v.player)[j],
{
    let pc = v.piece_at(x, y)->Some_0;
    let ds = piece_dirs(v, x, y);
    if pc.piece_type == crate::piece_type::PieceType::King {
        assert(ds == crate::board::king_dirs());
        let d = crate::board::man_dirs(v.player)[j];
        if v.player == crate::player::Player::White {
            if j == 0 {
                assert(ds[0] == d);
            } else {
                assert(ds[1] == d);
            }
        } else {
            if j == 0 {
                assert(ds[2] == d);
            } else {
                assert(ds[3] == d);
            }
        }
    } else {
        assert(ds == crate::board::man_dirs(v.player));
        assert(ds[j] == crate::board::man_dirs(v.player)[j]);
    }
}

/// A direction of a king stands in the king's direction list.
proof fn lemma_king_dir_in_piece_dirs(v: BoardView, x: int, y: int, dx: int, dy: int)
    requires
        dx == 1 || dx == -1,
        dy == 1 || dy == -1,
        v.piece_at(x, y) matches Some(p) && p.player == v.player && p.piece_type
            == crate::piece_type::PieceType::King,
    ensures
        exists|i: int|
            0 <= i < piece_dirs(v, x, y).len() && #[trigger] piece_dirs(v, x, y)[i] == (
            dx as i8,
            dy as i8,
        ),
{
    let ds = piece_dirs(v, x, y);
    assert(ds == crate::board::king_dirs());
    if dx == 1 && dy == 1 {
        assert(ds[0] == (dx as i8, dy as i8));
    } else if dx == -1 && dy == 1 {
        assert(ds[1] == (dx as i8, dy as i8));
    } else if dx == 1 && dy == -1 {
        assert(ds[2] == (dx as i8, dy as i8));
    } else {
        assert(ds[3] == (dx as i8, dy as i8));
    }
}

/// A square none of whose directions offers a jump generates no chain.
proof fn lemma_gen_jumps_all_blocked(v: BoardView, dirs: Seq<(i8, i8)>, i: int, x: int, y: int)
    requires
        0 <= i,
        forall|j: int|
            i <= j < dirs.len() ==> !jumpable(
                v,
                x,
                y,
                (#[trigger] dirs[j]).0 as int,
                dirs[j].1 as int,
            ),
    ensures
        gen_jumps(v, dirs, i, x, y).len() == 0,
    decreases dirs.len() - i,
{
    if i < dirs.len() {
        lemma_gen_jumps_all_blocked(v, dirs, i + 1, x, y);
    }
}

/// A square none of whose directions offers a step generates no step.
proof fn lemma_gen_steps_all_blocked(v: BoardView, dirs: Seq<(i8, i8)>, i: int, x: int, y: int)
    requires
        0 <= i,
        forall|j: int|
            i <= j < dirs.len() ==> !steppable(
                v,
                x,
                y,
                (#[trigger] dirs[j]).0 as int,
                dirs[j].1 as int,
            ),
    ensures
        gen_steps(v, dirs, i, x, y).len() == 0,
    decreases dirs.len() - i,
{
    if i < dirs.len() {
        lemma_gen_steps_all_blocked(v, dirs, i + 1, x, y);
    }
}

/// A square whose generation is nonempty makes the whole board's
/// generation nonempty.
proof fn lemma_gen_all_nonempty_at(v: BoardView, cj: bool, k: int, x: int, y: int)
    requires
        0 <= k <= x * 8 + y,
        0 <= x < 8,
        0 <= y < 8,
        gen_square(v, cj, x, y).len() > 0,
    ensures
        gen_all(v, cj, k).len() > 0,
    decreases 64 - k,
{
    if k == x * 8 + y {
        assert(k / 8 == x && k % 8 == y) by (nonlinear_arith)
            requires
                k == x * 8 + y,
                0 <= y < 8,
                0 <= x < 8,
        ;
    } else {
        lemma_gen_all_nonempty_at(v, cj, k + 1, x, y);
    }
}

/// If every square from the `k`-th on generates nothing, the whole board
/// generates nothing.
proof fn lemma_gen_all_empty(v: BoardView, cj: bool, k: int)
    requires
        forall|kk: int|
            k <= kk < 64 ==> gen_square(v, cj, #[trigger] (kk / 8), kk % 8).len() == 0,
    ensures
        gen_all(v, cj, k).len() == 0,
    decreases 64 - k,
{
    if 0 <= k < 64 {
        assert(gen_square(v, cj, k / 8, k % 8).len() == 0);
        lemma_gen_all_empty(v, cj, k + 1);
    }
}

/// `possible_moves` is empty exactly on a finished position: a forced
/// draw, or no legal move for the mover.
pub proof fn lemma_moves_empty_iff_end(v: BoardView)
    requires
        v.wf_boards(),
    ensures
        (spec_possible_moves(v).len() == 0) <==> crate::board::spec_is_end(v),
{
    crate::move_sort::lemma_sort_len(spec_moves_unsorted(v));
    lemma_can_jump_iff(v);
    lemma_can_move_iff(v);
    if v.spec_is_draw() {
    } else {
        let cj = spec_can_jump(v);
        if crate::board::spec_is_end(v) {
            // No move anywhere: every square generates nothing.
            assert(!spec_can_move(v) && !cj);
            assert forall|kk: int| 0 <= kk < 64 implies gen_square(
                v,
                cj,
                #[trigger] (kk / 8),
                kk % 8,
            ).len() == 0 by {
                let x = kk / 8;
                let y = kk % 8;
                if crate::bitboard::spec_is_playable(x, y) && spec_get_bit(
                    v.player_bb(),
                    sq(x, y) as u32,
                ) {
                    lemma_player_bit_piece(v, x, y);
                    assert(!square_can_step(v, x, y));
                    assert forall|j: int| 0 <= j < piece_dirs(v, x, y).len() implies !steppable(
                        v,
                        x,
                        y,
                        (#[trigger] piece_dirs(v, x, y)[j]).0 as int,
                        piece_dirs(v, x, y)[j].1 as int,
                    ) by {};
                    lemma_gen_steps_all_blocked(v, piece_dirs(v, x, y), 0, x, y);
                }
            };
            lemma_gen_all_empty(v, cj, 0);
        }
        if spec_possible_moves(v).len() == 0 {
            // Nothing generated: the mover can neither jump nor step.
            if cj {
                let (x, y) = choose|x: int, y: int| #[trigger] square_can_jump(v, x, y);
                if square_can_jump(v, x, y) {
                    if gen_jumps(v, piece_dirs(v, x, y), 0, x, y).len() == 0 {
                        lemma_gen_jumps_empty(v, piece_dirs(v, x, y), 0, x, y);
                        assert(false);
                    }
                    lemma_piece_bits(v, x, y);
                    assert(gen_square(v, cj, x, y).len() > 0);
                    lemma_gen_all_nonempty_at(v, cj, 0, x, y);
                    assert(false);
                }
                assert(!spec_can_jump(v));
                assert(false);
            } else {
                if spec_can_move(v) {
                    let (x, y) = choose|x: int, y: int| #[trigger] square_can_step(v, x, y);
                    assert(square_can_step(v, x, y));
                    let ds = piece_dirs(v, x, y);
                    let j = choose|j: int|
                        0 <= j < ds.len() && steppable(
                            v,
                            x,
                            y,
                            (#[trigger] ds[j]).0 as int,
                            ds[j].1 as int,
                        );
                    assert(gen_steps(v, ds, j, x, y).len() > 0) by {
                        lemma_gen_steps_len_at(v, ds, j, x, y);
                    };
                    lemma_gen_steps_prefix_len(v, ds, 0, j, x, y);
                    lemma_piece_bits(v, x, y);
                    assert(gen_square(v, cj, x, y).len() > 0);
                    lemma_gen_all_nonempty_at(v, cj, 0, x, y);
                    assert(false);
                }
                assert(crate::board::spec_is_end(v));
            }
        }
    }
}

/// A steppable direction contributes a step.
proof fn lemma_gen_steps_len_at(v: BoardView, dirs: Seq<(i8, i8)>, j: int, x: int, y: int)
    requires
        0 <= j < dirs.len(),
        steppable(v, x, y, dirs[j].0 as int, dirs[j].1 as int),
    ensures
        gen_steps(v, dirs, j, x, y).len() > 0,
{
}

/// Generation from an earlier direction index yields at least as much.
proof fn lemma_gen_steps_prefix_len(v: BoardView, dirs: Seq<(i8, i8)>, i: int, j: int, x: int, y: int)
    requires
        0 <= i <= j,
        gen_steps(v, dirs, j, x, y).len() > 0,
    ensures
        gen_steps(v, dirs, i, x, y).len() > 0,
    decreases j - i,
{
    if i < j {
        lemma_gen_steps_prefix_len(v, dirs, i + 1, j, x, y);
    }
}

/// An unfinished position always offers a move.
pub proof fn lemma_not_end_moves_nonempty(v: BoardView)
    requires
        v.wf_boards(),
        !crate::board::spec_is_end(v),
    ensures
        spec_possible_moves(v).len() > 0,
{
    lemma_moves_empty_iff_end(v);
}

// ---------------------------------------------------------------------
// Applying a move.
// ---------------------------------------------------------------------

/// What one jump does, square by square.
pub proof fn lemma_apply_jump_pointwise(u: BoardView, x: int, y: int, dx: int, dy: int)
    requires
        jumpable(u, x, y, dx, dy),
    ensures
        forall|a: int, b: int|
            spec_is_playable(a, b) ==> (#[trigger] apply_jump(u, x, y, dx, dy).piece_at(a, b))
                == (if a == x + 2 * dx && b == y + 2 * dy {
                u.piece_at(x, y)
            } else if (a == x && b == y) || (a == x + dx && b == y + dy) {
                None
            } else {
                u.piece_at(a, b)
            }),
        apply_jump(u, x, y, dx, dy).player == u.player,
        apply_jump(u, x, y, dx, dy).table == u.table,
        apply_jump(u, x, y, dx, dy).mwc == u.mwc,
        u.wf_boards() ==> apply_jump(u, x, y, dx, dy).wf_boards(),
{
    lemma_midpoint_playable(x, y, dx, dy);
    let u1 = u.with_square(x, y, None);
    let u2 = u1.with_square(x + dx, y + dy, None);
    let r = apply_jump(u, x, y, dx, dy);
    assert forall|a: int, b: int| spec_is_playable(a, b) implies #[trigger] r.piece_at(a, b) == (
    if a == x + 2 * dx && b == y + 2 * dy {
        u.piece_at(x, y)
    } else if (a == x && b == y) || (a == x + dx && b == y + dy) {
        None
    } else {
        u.piece_at(a, b)
    }) by {
        lemma_with_square_read(u, x, y, None, a, b);
        lemma_with_square_read(u1, x + dx, y + dy, None, a, b);
        lemma_with_square_read(u2, x + 2 * dx, y + 2 * dy, u.piece_at(x, y), a, b);
    };
    if u.wf_boards() {
        crate::movegen::lemma_with_square_wf_boards(u, x, y, None);
        crate::movegen::lemma_with_square_wf_boards(u1, x + dx, y + dy, None);
        crate::movegen::lemma_with_square_wf_boards(u2, x + 2 * dx, y + 2 * dy, u.piece_at(x, y));
    }
}

/// The order `play` writes the three squares in gives the same board as
/// the order the explorer uses.
pub proof fn lemma_play_jump_exec_eq(u: BoardView, x: int, y: int, dx: int, dy: int)
    requires
        jumpable(u, x, y, dx, dy),
    ensures
        ({
            let u1 = u.with_square(x + dx, y + dy, None);
            let u2 = u1.with_square(x + 2 * dx, y + 2 * dy, u1.piece_at(x, y));
            u2.with_square(x, y, None)
        }) == apply_jump(u, x, y, dx, dy),
{
    lemma_midpoint_playable(x, y, dx, dy);
    let u1 = u.with_square(x + dx, y + dy, None);
    lemma_with_square_read(u, x + dx, y + dy, None, x, y);
    assert(u1.piece_at(x, y) == u.piece_at(x, y));
    let p = u.piece_at(x, y);
    // mid, land, src  ->  src, mid, land
    lemma_with_square_commute(u1, x + 2 * dx, y + 2 * dy, p, x, y, None);
    lemma_with_square_commute(u, x + dx, y + dy, None, x, y, None);
    lemma_with_square_commute(
        u.with_square(x, y, None),
        x + dx,
        y + dy,
        None,
        x + 2 * dx,
        y + 2 * dy,
        p,
    );
}

/// The board after the hops of `c` from index `i` on, written in the
/// order `play` writes squares.
pub open spec fn apply_chain(v: BoardView, c: Seq<(i8, i8)>, i: int) -> BoardView
    decreases c.len() - i,
{
    if i < 0 || i + 1 >= c.len() {
        v
    } else {
        let x = c[i].0 as int;
        let y = c[i].1 as int;
        let x2 = c[i + 1].0 as int;
        let y2 = c[i + 1].1 as int;
        let xm = (x + x2) / 2;
        let ym = (y + y2) / 2;
        let v1 = v.with_square(xm, ym, None);
        let v2 = v1.with_square(x2, y2, v1.piece_at(x, y));
        let v3 = v2.with_square(x, y, None);
        apply_chain(v3, c, i + 1)
    }
}

/// The position after playing the move `c`: the piece walks the chain
/// (capturing on a jump), irreversible moves clear the repetition table
/// and the no-capture counter, a man reaching his last row becomes a
/// king, the turn passes, and the new position is put on record.
pub open spec fn spec_play(v: BoardView, c: Seq<(i8, i8)>) -> BoardView {
    let moved: BoardView = spec_moved(v, c);
    let xl = c[c.len() - 1].0 as int;
    let yl = c[c.len() - 1].1 as int;
    let white_man = Piece {
        player: crate::player::Player::White,
        piece_type: crate::piece_type::PieceType::Man,
    };
    let black_man = Piece {
        player: crate::player::Player::Black,
        piece_type: crate::piece_type::PieceType::Man,
    };
    let promoted: BoardView = if yl == 7 && moved.piece_at(xl, yl) == Some(white_man) {
        let z = moved.with_square(
            xl,
            yl,
            Some(
                Piece {
                    player: crate::player::Player::White,
                    piece_type: crate::piece_type::PieceType::King,
                },
            ),
        );
        BoardView { table: Seq::empty(), mwc: 0i8, ..z }
    } else if yl == 0 && moved.piece_at(xl, yl) == Some(black_man) {
        let z = moved.with_square(
            xl,
            yl,
            Some(
                Piece {
                    player: crate::player::Player::Black,
                    piece_type: crate::piece_type::PieceType::King,
                },
            ),
        );
        BoardView { table: Seq::empty(), mwc: 0i8, ..z }
    } else {
        moved
    };
    let switched = BoardView { player: promoted.player.spec_other(), ..promoted };
    BoardView {
        table: crate::board::table_incr(switched.table, switched.hash()),
        ..switched
    }
}

/// Walking a coherent chain keeps the bitboards consistent.
proof fn lemma_apply_chain_wf_boards(u: BoardView, dirs: Seq<(i8, i8)>, c: Seq<(i8, i8)>, i: int)
    requires
        u.wf_boards(),
        chain_from(u, dirs, c, i),
    ensures
        apply_chain(u, c, i).wf_boards(),
    decreases c.len() - i,
{
    if i + 1 >= c.len() {
    } else {
        let j = choose|j: int|
            0 <= j < dirs.len() && {
                let dx = (#[trigger] dirs[j]).0 as int;
                let dy = dirs[j].1 as int;
                &&& c[i + 1].0 as int == c[i].0 as int + 2 * dx
                &&& c[i + 1].1 as int == c[i].1 as int + 2 * dy
                &&& jumpable(u, c[i].0 as int, c[i].1 as int, dx, dy)
                &&& chain_from(apply_jump(u, c[i].0 as int, c[i].1 as int, dx, dy), dirs, c, i + 1)
            };
        let x = c[i].0 as int;
        let y = c[i].1 as int;
        let dx = dirs[j].0 as int;
        let dy = dirs[j].1 as int;
        lemma_play_jump_exec_eq(u, x, y, dx, dy);
        lemma_apply_jump_pointwise(u, x, y, dx, dy);
        lemma_midpoint_playable(x, y, dx, dy);
        let u1 = u.with_square(x + dx, y + dy, None);
        let u2 = u1.with_square(x + 2 * dx, y + 2 * dy, u1.piece_at(x, y));
        let u3 = u2.with_square(x, y, None);
        assert(u3 == apply_jump(u, x, y, dx, dy));
        assert((x + (x + 2 * dx)) / 2 == x + dx) by {
            assert(x + (x + 2 * dx) == 2 * (x + dx));
            assert((2 * (x + dx)) / 2 == x + dx) by (nonlinear_arith);
        };
        assert((y + (y + 2 * dy)) / 2 == y + dy) by {
            assert(y + (y + 2 * dy) == 2 * (y + dy));
            assert((2 * (y + dy)) / 2 == y + dy) by (nonlinear_arith);
        };
        assert(apply_chain(u, c, i) == apply_chain(u3, c, i + 1));
        crate::movegen::lemma_with_square_wf_boards(u, x, y, None);
        crate::movegen::lemma_with_square_wf_boards(
            u.with_square(x, y, None),
            x + dx,
            y + dy,
            None,
        );
        crate::movegen::lemma_with_square_wf_boards(
            u.with_square(x, y, None).with_square(x + dx, y + dy, None),
            x + 2 * dx,
            y + 2 * dy,
            u.piece_at(x, y),
        );
        lemma_apply_chain_wf_boards(u3, dirs, c, i + 1);
    }
}

/// Playing a legal move keeps the bitboards consistent.
pub proof fn lemma_spec_play_wf_boards(v: BoardView, c: Seq<(i8, i8)>)
    requires
        v.wf_boards(),
        spec_possible_moves(v).contains(c),
    ensures
        spec_play(v, c).wf_boards(),
{
    lemma_possible_move_origin(v, c);
    lemma_moves_uniform_kind(v);
    let cj = spec_can_jump(v);
    let org = choose|x: int, y: int| from_square(v, cj, x, y, c);
    let dirs = piece_dirs(v, org.0, org.1);
    let moved = spec_moved(v, c);
    if cj {
        lemma_gen_jumps_sound(v, dirs, 0, org.0, org.1, c);
        assert(is_jump_move(c));
        lemma_apply_chain_wf_boards(v, dirs, c, 0);
        assert(moved.wf_boards());
    } else {
        lemma_gen_steps_sound(v, dirs, 0, org.0, org.1, c);
        assert(is_step_move(c));
        let x0 = c[0].0 as int;
        let y0 = c[0].1 as int;
        let x1 = c[1].0 as int;
        let y1 = c[1].1 as int;
        crate::movegen::lemma_with_square_wf_boards(v, x1, y1, v.piece_at(x0, y0));
        crate::movegen::lemma_with_square_wf_boards(
            v.with_square(x1, y1, v.piece_at(x0, y0)),
            x0,
            y0,
            None,
        );
        assert(moved.wf_boards());
    }
    let xl = c[c.len() - 1].0 as int;
    let yl = c[c.len() - 1].1 as int;
    assert(spec_is_playable(xl, yl)) by {
        if cj {
            lemma_chain_last_playable(v, dirs, c, 0);
        }
    };
    let pr = spec_play(v, c);
    let wkg = Piece {
        player: crate::player::Player::White,
        piece_type: crate::piece_type::PieceType::King,
    };
    let bkg = Piece {
        player: crate::player::Player::Black,
        piece_type: crate::piece_type::PieceType::King,
    };
    crate::movegen::lemma_with_square_wf_boards(moved, xl, yl, Some(wkg));
    crate::movegen::lemma_with_square_wf_boards(moved, xl, yl, Some(bkg));
}

/// The last square of a coherent chain is playable.
proof fn lemma_chain_last_playable(u: BoardView, dirs: Seq<(i8, i8)>, c: Seq<(i8, i8)>, i: int)
    requires
        chain_from(u, dirs, c, i),
    ensures
        spec_is_playable(c[c.len() - 1].0 as int, c[c.len() - 1].1 as int),
    decreases c.len() - i,
{
    if i == c.len() - 1 {
    } else {
        let j = choose|j: int|
            0 <= j < dirs.len() && {
                let dx = (#[trigger] dirs[j]).0 as int;
                let dy = dirs[j].1 as int;
                &&& c[i + 1].0 as int == c[i].0 as int + 2 * dx
                &&& c[i + 1].1 as int == c[i].1 as int + 2 * dy
                &&& jumpable(u, c[i].0 as int, c[i].1 as int, dx, dy)
                &&& chain_from(apply_jump(u, c[i].0 as int, c[i].1 as int, dx, dy), dirs, c, i + 1)
            };
        lemma_chain_last_playable(
            apply_jump(u, c[i].0 as int, c[i].1 as int, dirs[j].0 as int, dirs[j].1 as int),
            dirs,
            c,
            i + 1,
        );
    }
}

/// If every square but one still holds its old piece or nothing, and the
/// one square holds no unpromoted man on his last row, the promotion-row
/// invariant carries over.
proof fn lemma_back_rows_ok(v: BoardView, m: BoardView, xl: int, yl: int)
    requires
        v.wf(),
        m.wf_boards(),
        spec_is_playable(xl, yl),
        forall|a: int, b: int|
            spec_is_playable(a, b) && !(a == xl && b == yl) ==> ((#[trigger] m.piece_at(a, b))
                == v.piece_at(a, b) || m.piece_at(a, b) is None),
        !(m.piece_at(xl, yl) == Some(
            Piece {
                player: crate::player::Player::White,
                piece_type: crate::piece_type::PieceType::Man,
            },
        ) && yl == 7),
        !(m.piece_at(xl, yl) == Some(
            Piece {
                player: crate::player::Player::Black,
                piece_type: crate::piece_type::PieceType::Man,
            },
        ) && yl == 0),
    ensures
        m.white & !m.king & crate::board::TOP_ROW_MASK == 0,
        m.black & !m.king & crate::board::BOTTOM_ROW_MASK == 0,
{
    let top = crate::board::TOP_ROW_MASK;
    let bottom = crate::board::BOTTOM_ROW_MASK;
    assert(m.white & !m.king & top == 0) by {
        crate::bitboard::lemma_word_nonzero(m.white & !m.king & top);
        if m.white & !m.king & top != 0 {
            let n = choose|n: u32| n < 32 && spec_get_bit(m.white & !m.king & top, n);
            crate::bitboard::lemma_bit_ops(m.white & !m.king, top, n);
            crate::bitboard::lemma_bit_ops(m.white, !m.king, n);
            crate::bitboard::lemma_bit_ops(m.king, m.king, n);
            assert(spec_get_bit(crate::board::TOP_ROW_MASK, n) ==> n >= 28) by (bit_vector);
            crate::bitboard::lemma_index_square(n as int);
            let a = crate::bitboard::x_of(n as int);
            let b = crate::bitboard::y_of(n as int);
            assert(b == 7);
            assert(m.piece_at(a, b) == Some(
                Piece {
                    player: crate::player::Player::White,
                    piece_type: crate::piece_type::PieceType::Man,
                },
            ));
            if a == xl && b == yl {
            } else {
                assert(v.piece_at(a, b) == Some(
                    Piece {
                        player: crate::player::Player::White,
                        piece_type: crate::piece_type::PieceType::Man,
                    },
                ));
                assert(spec_get_bit(v.white, n) && !spec_get_bit(v.king, n));
                crate::bitboard::lemma_bit_ops(v.white & !v.king, top, n);
                crate::bitboard::lemma_bit_ops(v.white, !v.king, n);
                crate::bitboard::lemma_bit_ops(v.king, v.king, n);
                assert(spec_get_bit(crate::board::TOP_ROW_MASK, n)) by (bit_vector)
                    requires
                        n < 32,
                        n >= 28,
                ;
                assert(spec_get_bit(v.white & !v.king & top, n));
                crate::bitboard::lemma_word_nonzero(v.white & !v.king & top);
            }
        }
    };
    assert(m.black & !m.king & bottom == 0) by {
        crate::bitboard::lemma_word_nonzero(m.black & !m.king & bottom);
        if m.black & !m.king & bottom != 0 {
            let n = choose|n: u32| n < 32 && spec_get_bit(m.black & !m.king & bottom, n);
            crate::bitboard::lemma_bit_ops(m.black & !m.king, bottom, n);
            crate::bitboard::lemma_bit_ops(m.black, !m.king, n);
            crate::bitboard::lemma_bit_ops(m.king, m.king, n);
            assert(spec_get_bit(crate::board::BOTTOM_ROW_MASK, n) ==> n < 4) by (bit_vector);
            crate::bitboard::lemma_index_square(n as int);
            let a = crate::bitboard::x_of(n as int);
            let b = crate::bitboard::y_of(n as int);
            assert(b == 0);
            assert(!spec_get_bit(m.white, n)) by {
                crate::bitboard::lemma_bit_ops(m.white, m.black, n);
                assert(!spec_get_bit(0u32, n)) by (bit_vector)
                    requires
                        n < 32,
                ;
            };
            assert(m.piece_at(a, b) == Some(
                Piece {
                    player: crate::player::Player::Black,
                    piece_type: crate::piece_type::PieceType::Man,
                },
            ));
            if a == xl && b == yl {
            } else {
                assert(v.piece_at(a, b) == Some(
                    Piece {
                        player: crate::player::Player::Black,
                        piece_type: crate::piece_type::PieceType::Man,
                    },
                ));
                assert(spec_get_bit(v.black, n) && !spec_get_bit(v.king, n));
                crate::bitboard::lemma_bit_ops(v.black & !v.king, bottom, n);
                crate::bitboard::lemma_bit_ops(v.black, !v.king, n);
                crate::bitboard::lemma_bit_ops(v.king, v.king, n);
                assert(spec_get_bit(crate::board::BOTTOM_ROW_MASK, n)) by (bit_vector)
                    requires
                        n < 4,
                ;
                assert(spec_get_bit(v.black & !v.king & bottom, n));
                crate::bitboard::lemma_word_nonzero(v.black & !v.king & bottom);
            }
        }
    };
}

impl crate::board::Board {
    /// Play a legal move: walk the chain, capture on jumps, promote on
    /// the last row, pass the turn, and record the new position.  The
    /// move must come from `possible_moves`; an illegal move is a
    /// contract violation of the caller.
    #[verifier::rlimit(100)]
    pub fn play(&mut self, moves: &crate::board::Move)
        requires
            old(self)@.wf(),
            spec_possible_moves(old(self)@).contains(moves@),
        ensures
            final(self)@ == spec_play(old(self)@, moves@),
            final(self)@.wf(),
    {
        let ghost v = old(self)@;
        let ghost c = moves@;
        proof {
            lemma_possible_move_origin(v, c);
            lemma_moves_uniform_kind(v);
        }
        let ghost cj = spec_can_jump(v);
        let ghost org = choose|x: int, y: int| from_square(v, cj, x, y, c);
        let ghost dirs = piece_dirs(v, org.0, org.1);
        proof {
            if cj {
                lemma_gen_jumps_sound(v, dirs, 0, org.0, org.1, c);
            } else {
                lemma_gen_steps_sound(v, dirs, 0, org.0, org.1, c);
            }
            lemma_piece_dirs_unit(v, org.0, org.1);
            assert(c[0] == (org.0 as i8, org.1 as i8));
            // The mover's piece stands on the first square.
            crate::bitboard::lemma_bit_ops(v.white, v.black, sq(org.0, org.1) as u32);
            assert(v.piece_at(org.0, org.1) is Some);
        }
        let (x0, y0) = moves[0];
        let (x1, y1) = moves[1];
        let mut x = x0;
        let mut y = y0;
        let dy_abs = if y1 >= y0 {
            y1 - y0
        } else {
            y0 - y1
        };
        let ghost w_moved = spec_moved(v, c);
        if dy_abs == 1 {
            // A simple step.
            proof {
                if cj {
                    assert(is_jump_move(c));
                    assert(false);
                }
                let j = choose|j: int|
                    0 <= j < dirs.len() && {
                        let dx = (#[trigger] dirs[j]).0 as int;
                        let dy = dirs[j].1 as int;
                        &&& c[1].0 as int == org.0 + dx
                        &&& c[1].1 as int == org.1 + dy
                        &&& steppable(v, org.0, org.1, dx, dy)
                    };
                assert(spec_is_playable(x1 as int, y1 as int));
            }
            let p = self.get(x0, y0);
            self.set(x1, y1, p);
            self.set(x0, y0, None);
            x = x1;
            y = y1;
            proof {
                let w1 = v.with_square(x1 as int, y1 as int, v.piece_at(x0 as int, y0 as int));
                crate::movegen::lemma_with_square_wf_boards(
                    v,
                    x1 as int,
                    y1 as int,
                    v.piece_at(x0 as int, y0 as int),
                );
                crate::movegen::lemma_with_square_wf_boards(w1, x0 as int, y0 as int, None);
                lemma_with_square_read(
                    v,
                    x1 as int,
                    y1 as int,
                    v.piece_at(x0 as int, y0 as int),
                    x1 as int,
                    y1 as int,
                );
                lemma_with_square_read(w1, x0 as int, y0 as int, None, x1 as int, y1 as int);
            }
            if self.get(x1, y1).unwrap().is_man() {
                self.reset_board_count();
            }
            proof {
                assert(!v.spec_is_draw());
                assert(self@.mwc == v.mwc && v.mwc < 80);
            }
            self.incr_moves_without_capture();
            proof {
                assert(self@ == w_moved);
                // Where each square stands relative to the original.
                let w1 = v.with_square(x1 as int, y1 as int, v.piece_at(x0 as int, y0 as int));
                assert forall|a: int, b: int|
                    spec_is_playable(a, b) && !(a == x as int && b == y as int) implies ((
                #[trigger] self@.piece_at(a, b)) == v.piece_at(a, b) || self@.piece_at(a, b)
                    is None) by {
                    lemma_with_square_read(
                        v,
                        x1 as int,
                        y1 as int,
                        v.piece_at(x0 as int, y0 as int),
                        a,
                        b,
                    );
                    lemma_with_square_read(w1, x0 as int, y0 as int, None, a, b);
                };
                assert(self@.piece_at(x as int, y as int) is Some);
                assert(self@.wf_boards());
            }
        } else {
            // A jump chain.
            proof {
                if !cj {
                    assert(is_step_move(c));
                    assert(false);
                }
                assert(chain_from(v, dirs, c, 0));
            }
            let mut i: usize = 1;
            let n = moves.len();
            while i < n
                invariant
                    1 <= i <= n,
                    n == c.len(),
                    c.len() >= 2,
                    c == moves@,
                    (x, y) == c[i - 1],
                    spec_is_playable(x as int, y as int),
                    self@.wf_boards(),
                    self@.player == v.player,
                    self@.table == v.table,
                    self@.mwc == v.mwc,
                    chain_from(self@, dirs, c, i - 1),
                    forall|j: int|
                        0 <= j < dirs.len() ==> ((#[trigger] dirs[j]).0 == 1 || dirs[j].0 == -1)
                            && (dirs[j].1 == 1 || dirs[j].1 == -1),
                    apply_chain(self@, c, i - 1) == apply_chain(v, c, 0),
                    self@.piece_at(x as int, y as int) == v.piece_at(org.0, org.1),
                    v.piece_at(org.0, org.1) is Some,
                    forall|a: int, b: int|
                        spec_is_playable(a, b) && !(a == x as int && b == y as int) ==> ((
                        #[trigger] self@.piece_at(a, b)) == v.piece_at(a, b) || self@.piece_at(
                            a,
                            b,
                        ) is None),
                decreases n - i,
            {
                let ghost u = self@;
                let (x2, y2) = moves[i];
                proof {
                    assert(chain_from(u, dirs, c, i - 1));
                    assert(i - 1 < c.len() - 1);
                }
                let ghost jd = choose|j: int|
                    0 <= j < dirs.len() && {
                        let dx = (#[trigger] dirs[j]).0 as int;
                        let dy = dirs[j].1 as int;
                        &&& c[i - 1 + 1].0 as int == c[i - 1].0 as int + 2 * dx
                        &&& c[i - 1 + 1].1 as int == c[i - 1].1 as int + 2 * dy
                        &&& jumpable(u, c[i - 1].0 as int, c[i - 1].1 as int, dx, dy)
                        &&& chain_from(
                            apply_jump(u, c[i - 1].0 as int, c[i - 1].1 as int, dx, dy),
                            dirs,
                            c,
                            i - 1 + 1,
                        )
                    };
                let ghost dxs = dirs[jd].0 as int;
                let ghost dys = dirs[jd].1 as int;
                proof {
                    assert(jumpable(u, x as int, y as int, dxs, dys));
                    lemma_midpoint_playable(x as int, y as int, dxs, dys);
                }
                let dx: i8 = if x2 > x {
                    1
                } else {
                    -1
                };
                let dyy: i8 = if y2 > y {
                    1
                } else {
                    -1
                };
                proof {
                    assert(x2 as int == x as int + 2 * dxs);
                    assert(dx as int == dxs && dyy as int == dys);
                }
                let xm = x + dx;
                let ym = y + dyy;
                self.set(xm, ym, None);
                proof {
                    crate::movegen::lemma_with_square_wf_boards(
                        u,
                        xm as int,
                        ym as int,
                        None,
                    );
                }
                let p = self.get(x, y);
                self.set(x2, y2, p);
                self.set(x, y, None);
                proof {
                    lemma_play_jump_exec_eq(u, x as int, y as int, dxs, dys);
                    assert(self@ == apply_jump(u, x as int, y as int, dxs, dys));
                    lemma_apply_jump_pointwise(u, x as int, y as int, dxs, dys);
                    assert((x as int + x2 as int) / 2 == x as int + dxs) by {
                        assert(x as int + x2 as int == 2 * (x as int) + 2 * dxs);
                        assert((2 * (x as int) + 2 * dxs) / 2 == x as int + dxs) by (nonlinear_arith);
                    };
                    assert((y as int + y2 as int) / 2 == y as int + dys) by {
                        assert(y as int + y2 as int == 2 * (y as int) + 2 * dys);
                        assert((2 * (y as int) + 2 * dys) / 2 == y as int + dys) by (nonlinear_arith);
                    };
                    assert(apply_chain(u, c, i - 1) == apply_chain(self@, c, i as int));
                    assert(self@.wf_boards()) by {
                        let u1 = u.with_square(x as int, y as int, None);
                        let u2 = u1.with_square(x as int + dxs, y as int + dys, None);
                        crate::movegen::lemma_with_square_wf_boards(u, x as int, y as int, None);
                        crate::movegen::lemma_with_square_wf_boards(
                            u1,
                            x as int + dxs,
                            y as int + dys,
                            None,
                        );
                        crate::movegen::lemma_with_square_wf_boards(
                            u2,
                            x as int + 2 * dxs,
                            y as int + 2 * dys,
                            u.piece_at(x as int, y as int),
                        );
                    };
                    assert(self@.piece_at(x2 as int, y2 as int) == v.piece_at(org.0, org.1));
                    assert forall|a: int, b: int|
                        spec_is_playable(a, b) && !(a == x2 as int && b == y2 as int) implies ((
                    #[trigger] self@.piece_at(a, b)) == v.piece_at(a, b) || self@.piece_at(a, b)
                        is None) by {
                        if (a == x as int && b == y as int) || (a == x as int + dxs && b
                            == y as int + dys) {
                            assert(self@.piece_at(a, b) is None);
                        } else {
                            assert(self@.piece_at(a, b) == u.piece_at(a, b));
                        }
                    };
                }
                x = x2;
                y = y2;
                i += 1;
            }
            proof {
                assert(apply_chain(self@, c, n - 1) == self@);
                assert(self@ == apply_chain(v, c, 0));
            }
            let ghost pre_reset = self@;
            self.reset_board_count();
            self.reset_moves_without_capture();
            proof {
                assert(self@ == w_moved);
                assert(self@.wf_boards());
                assert forall|a: int, b: int| spec_is_playable(a, b) implies #[trigger] self@.piece_at(
                    a,
                    b,
                ) == pre_reset.piece_at(a, b) by {};
            }
        }
        // Promotion on the last row.
        let ghost moved = self@;
        proof {
            assert(moved == w_moved);
            assert((x, y) == c[c.len() - 1]);
            assert(spec_is_playable(x as int, y as int));
            assert(self@.piece_at(x as int, y as int) is Some);
        }
        let landed = self.get(x, y).unwrap();
        if y == 7 && landed.is_white() && landed.is_man() {
            self.set(
                x,
                y,
                Some(
                    crate::piece::Piece::from(
                        crate::player::Player::White,
                        crate::piece_type::PieceType::King,
                    ),
                ),
            );
            self.reset_board_count();
            self.reset_moves_without_capture();
            proof {
                crate::movegen::lemma_with_square_wf_boards(
                    moved,
                    x as int,
                    y as int,
                    Some(
                        Piece {
                            player: crate::player::Player::White,
                            piece_type: crate::piece_type::PieceType::King,
                        },
                    ),
                );
            }
        } else if y == 0 && landed.is_black() && landed.is_man() {
            self.set(
                x,
                y,
                Some(
                    crate::piece::Piece::from(
                        crate::player::Player::Black,
                        crate::piece_type::PieceType::King,
                    ),
                ),
            );
            self.reset_board_count();
            self.reset_moves_without_capture();
            proof {
                crate::movegen::lemma_with_square_wf_boards(
                    moved,
                    x as int,
                    y as int,
                    Some(
                        Piece {
                            player: crate::player::Player::Black,
                            piece_type: crate::piece_type::PieceType::King,
                        },
                    ),
                );
            }
        }
        let ghost promoted = self@;
        self.switch_player();
        self.incr_board_count();
        proof {
            assert(self@ == spec_play(v, c));
            // Well-formedness of the new position.
            let xl = c[c.len() - 1].0 as int;
            let yl = c[c.len() - 1].1 as int;
            let wkg = Piece {
                player: crate::player::Player::White,
                piece_type: crate::piece_type::PieceType::King,
            };
            let bkg = Piece {
                player: crate::player::Player::Black,
                piece_type: crate::piece_type::PieceType::King,
            };
            assert(promoted.wf_boards());
            if y == 7 && landed.player == crate::player::Player::White && landed.piece_type
                == crate::piece_type::PieceType::Man {
                assert forall|a: int, b: int|
                    spec_is_playable(a, b) && !(a == xl && b == yl) implies ((
                #[trigger] promoted.piece_at(a, b)) == v.piece_at(a, b) || promoted.piece_at(a, b)
                    is None) by {
                    lemma_with_square_read(moved, xl, yl, Some(wkg), a, b);
                };
                lemma_with_square_read(moved, xl, yl, Some(wkg), xl, yl);
                assert(promoted.piece_at(xl, yl) == Some(wkg));
            } else if y == 0 && landed.player == crate::player::Player::Black && landed.piece_type
                == crate::piece_type::PieceType::Man {
                assert forall|a: int, b: int|
                    spec_is_playable(a, b) && !(a == xl && b == yl) implies ((
                #[trigger] promoted.piece_at(a, b)) == v.piece_at(a, b) || promoted.piece_at(a, b)
                    is None) by {
                    lemma_with_square_read(moved, xl, yl, Some(bkg), a, b);
                };
                lemma_with_square_read(moved, xl, yl, Some(bkg), xl, yl);
                assert(promoted.piece_at(xl, yl) == Some(bkg));
            } else {
                assert(promoted == moved);
                assert(promoted.piece_at(xl, yl) == Some(landed));
            }
            lemma_back_rows_ok(v, promoted, xl, yl);
            crate::board::lemma_table_incr_wf(promoted.table, self@.hash());
            assert(self@.wf());
        }
    }
}

/// The board after the walking part of the move, before promotion: the
/// `moved` stage of `spec_play`.
pub open spec fn spec_moved(v: BoardView, c: Seq<(i8, i8)>) -> BoardView {
    let x0 = c[0].0 as int;
    let y0 = c[0].1 as int;
    let x1 = c[1].0 as int;
    let y1 = c[1].1 as int;
    if y1 - y0 == 1 || y0 - y1 == 1 {
        let w1 = v.with_square(x1, y1, v.piece_at(x0, y0)).with_square(x0, y0, None);
        let w2: BoardView = if w1.piece_at(x1, y1) matches Some(p) && p.piece_type
            == crate::piece_type::PieceType::Man {
            BoardView { table: Seq::empty(), ..w1 }
        } else {
            w1
        };
        BoardView { mwc: (w2.mwc + 1) as i8, ..w2 }
    } else {
        let w1 = apply_chain(v, c, 0);
        BoardView { table: Seq::empty(), mwc: 0i8, ..w1 }
    }
}

} // verus!
