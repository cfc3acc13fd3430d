//! Directional shift primitives over a 32-bit packed board.
//!
//! The 32 dark squares of an 8 by 8 board are numbered `y * 4 + x / 2`,
//! where `(x, y)` is a playable square: both coordinates in `0..8` and
//! `x + y` even.  A whole rank of four squares lives in one nibble, so a
//! diagonal move is a shift by 3, 4 or 5 bits, masked so that pieces do
//! not wrap around the board edges.

use vstd::prelude::*;

verus! {

pub const EVEN_ROW_MASK: u32 = 0x0f0f0f0f;
pub const ODD_ROW_MASK: u32 = 0xf0f0f0f0;
pub const LEFT_COLUMN_MASK: u32 = 0x01010101;
pub const RIGHT_COLUMN_MASK: u32 = 0x80808080;

pub open spec fn spec_get_bit(b: u32, n: u32) -> bool {
    (b >> n) & 1u32 == 1u32
}

pub open spec fn spec_set_bit(b: u32, n: u32, v: bool) -> u32 {
    if v {
        b | (1u32 << n)
    } else {
        b & !(1u32 << n)
    }
}

pub open spec fn in_board(x: int, y: int) -> bool {
    0 <= x < 8 && 0 <= y < 8
}

pub open spec fn spec_is_playable(x: int, y: int) -> bool {
    in_board(x, y) && (x + y) % 2 == 0
}

/// The bit index of the playable square `(x, y)`.
pub open spec fn sq(x: int, y: int) -> int {
    y * 4 + x / 2
}

pub open spec fn x_of(n: int) -> int {
    2 * (n % 4) + (n / 4) % 2
}

pub open spec fn y_of(n: int) -> int {
    n / 4
}

/// A unit diagonal step.
pub open spec fn is_direction(d: (i8, i8)) -> bool {
    (d.0 == 1 || d.0 == -1) && (d.1 == 1 || d.1 == -1)
}

pub open spec fn spec_move_ne(b: u32) -> u32 {
    ((EVEN_ROW_MASK & b) << 4) | ((ODD_ROW_MASK & !RIGHT_COLUMN_MASK & b) << 5)
}

pub open spec fn spec_move_nw(b: u32) -> u32 {
    ((EVEN_ROW_MASK & !LEFT_COLUMN_MASK & b) << 3) | ((ODD_ROW_MASK & b) << 4)
}

pub open spec fn spec_move_se(b: u32) -> u32 {
    ((EVEN_ROW_MASK & b) >> 4) | ((ODD_ROW_MASK & !RIGHT_COLUMN_MASK & b) >> 3)
}

pub open spec fn spec_move_sw(b: u32) -> u32 {
    ((EVEN_ROW_MASK & !LEFT_COLUMN_MASK & b) >> 5) | ((ODD_ROW_MASK & b) >> 4)
}

pub open spec fn spec_move_direction(b: u32, dx: int, dy: int) -> u32 {
    if dx == 1 && dy == 1 {
        spec_move_ne(b)
    } else if dx == -1 && dy == 1 {
        spec_move_nw(b)
    } else if dx == 1 && dy == -1 {
        spec_move_se(b)
    } else {
        spec_move_sw(b)
    }
}

/// Exists-form of "some bit below `n` is set", written recursively so the
/// bit-vector solver can unroll it.
pub open spec fn has_bit_below(w: u32, n: nat) -> bool
    decreases n,
{
    if n == 0 {
        false
    } else {
        spec_get_bit(w, (n - 1) as u32) || has_bit_below(w, (n - 1) as nat)
    }
}

pub fn is_playable(x: i8, y: i8) -> (r: bool)
    ensures
        r == spec_is_playable(x as int, y as int),
{
    if 0 <= x && x < 8 && 0 <= y && y < 8 {
        (x + y) % 2 == 0
    } else {
        false
    }
}

pub fn bitboard_index(x: i8, y: i8) -> (n: usize)
    requires
        spec_is_playable(x as int, y as int),
    ensures
        n == sq(x as int, y as int),
        n < 32,
{
    (y * 4 + x / 2) as usize
}

pub trait BitBoard: Sized + Copy {
    spec fn bits(self) -> u32;

    fn set_bit(&mut self, n: usize, value: bool)
        requires
            n < 32,
        ensures
            final(self).bits() == spec_set_bit(old(self).bits(), n as u32, value),
    ;

    fn get_bit(self, n: usize) -> (r: bool)
        requires
            n < 32,
        ensures
            r == spec_get_bit(self.bits(), n as u32),
    ;

    fn set(&mut self, x: i8, y: i8, value: bool)
        requires
            spec_is_playable(x as int, y as int),
        ensures
            final(self).bits() == spec_set_bit(old(self).bits(), sq(x as int, y as int) as u32, value),
    ;

    fn is_some(self, x: i8, y: i8) -> (r: bool)
        requires
            spec_is_playable(x as int, y as int),
        ensures
            r == spec_get_bit(self.bits(), sq(x as int, y as int) as u32),
    ;

    fn is_none(self, x: i8, y: i8) -> (r: bool)
        requires
            spec_is_playable(x as int, y as int),
        ensures
            r == !spec_get_bit(self.bits(), sq(x as int, y as int) as u32),
    ;

    fn move_direction(self, dir: &(i8, i8)) -> (r: Self)
        requires
            is_direction(*dir),
        ensures
            r.bits() == spec_move_direction(self.bits(), dir.0 as int, dir.1 as int),
    ;
}

impl BitBoard for u32 {
    open spec fn bits(self) -> u32 {
        self
    }

    fn set_bit(&mut self, n: usize, value: bool) {
        if value {
            let mask: u32 = 1u32 << n;
            *self = *self | mask;
        } else {
            let mask: u32 = !(1u32 << n);
            *self = *self & mask;
        }
    }

    fn get_bit(self, n: usize) -> (r: bool) {
        let mask: u32 = 1u32 << n;
        let r = self & mask != 0;
        proof {
            let nn = n as u32;
            assert((self & (1u32 << nn) != 0) == spec_get_bit(self, nn)) by (bit_vector)
                requires
                    nn < 32,
            ;
        }
        r
    }

    fn set(&mut self, x: i8, y: i8, value: bool) {
        let n = bitboard_index(x, y);
        self.set_bit(n, value);
    }

    fn is_some(self, x: i8, y: i8) -> (r: bool) {
        let n = bitboard_index(x, y);
        self.get_bit(n)
    }

    fn is_none(self, x: i8, y: i8) -> (r: bool) {
        !self.is_some(x, y)
    }

    fn move_direction(self, dir: &(i8, i8)) -> (r: Self) {
        let dx = dir.0;
        let dy = dir.1;
        if dx == 1 && dy == 1 {
            ((EVEN_ROW_MASK & self) << 4u32) | ((ODD_ROW_MASK & !RIGHT_COLUMN_MASK & self) << 5u32)
        } else if dx == -1 && dy == 1 {
            ((EVEN_ROW_MASK & !LEFT_COLUMN_MASK & self) << 3u32) | ((ODD_ROW_MASK & self) << 4u32)
        } else if dx == 1 && dy == -1 {
            ((EVEN_ROW_MASK & self) >> 4u32) | ((ODD_ROW_MASK & !RIGHT_COLUMN_MASK & self) >> 3u32)
        } else {
            ((EVEN_ROW_MASK & !LEFT_COLUMN_MASK & self) >> 5u32) | ((ODD_ROW_MASK & self) >> 4u32)
        }
    }
}

// ---------------------------------------------------------------------
// Facts about single bits.
// ---------------------------------------------------------------------

pub proof fn lemma_set_bit(b: u32, n: u32, v: bool, m: u32)
    by (bit_vector)
    requires
        n < 32,
        m < 32,
    ensures
        spec_get_bit(spec_set_bit(b, n, v), m) == (if m == n {
            v
        } else {
            spec_get_bit(b, m)
        }),
{
}

pub proof fn lemma_bit_ops(a: u32, b: u32, n: u32)
    by (bit_vector)
    requires
        n < 32,
    ensures
        spec_get_bit(a & b, n) == (spec_get_bit(a, n) && spec_get_bit(b, n)),
        spec_get_bit(a | b, n) == (spec_get_bit(a, n) || spec_get_bit(b, n)),
        spec_get_bit(!a, n) == !spec_get_bit(a, n),
{
}

pub proof fn lemma_nonzero_has_bit(w: u32)
    by (bit_vector)
    ensures
        (w != 0) == has_bit_below(w, 32),
{
}

pub proof fn lemma_has_bit_below_exists(w: u32, n: nat)
    requires
        has_bit_below(w, n),
        n <= 32,
    ensures
        exists|k: u32| k < n && spec_get_bit(w, k),
    decreases n,
{
    if spec_get_bit(w, (n - 1) as u32) {
        assert(((n - 1) as u32) < n && spec_get_bit(w, (n - 1) as u32));
    } else {
        lemma_has_bit_below_exists(w, (n - 1) as nat);
    }
}

pub proof fn lemma_bit_implies_has_bit_below(w: u32, k: u32, n: nat)
    requires
        k < n,
        n <= 32,
        spec_get_bit(w, k),
    ensures
        has_bit_below(w, n),
    decreases n,
{
    if k == n - 1 {
    } else {
        lemma_bit_implies_has_bit_below(w, k, (n - 1) as nat);
    }
}

/// A word is nonzero exactly when one of its 32 bits is set.
pub proof fn lemma_word_nonzero(w: u32)
    ensures
        (w != 0) <==> exists|k: u32| k < 32 && spec_get_bit(w, k),
{
    lemma_nonzero_has_bit(w);
    if w != 0 {
        lemma_has_bit_below_exists(w, 32);
    }
    if exists|k: u32| k < 32 && spec_get_bit(w, k) {
        let k = choose|k: u32| k < 32 && spec_get_bit(w, k);
        lemma_bit_implies_has_bit_below(w, k, 32);
    }
}

pub proof fn lemma_set_bit_commute(w: u32, n1: u32, v1: bool, n2: u32, v2: bool)
    by (bit_vector)
    requires
        n1 < 32,
        n2 < 32,
        n1 != n2,
    ensures
        spec_set_bit(spec_set_bit(w, n1, v1), n2, v2) == spec_set_bit(
            spec_set_bit(w, n2, v2),
            n1,
            v1,
        ),
{
}

proof fn lemma_neq_has_diff_bit(a: u32, b: u32)
    by (bit_vector)
    requires
        a != b,
    ensures
        a ^ b != 0,
        forall|k: u32|
            k < 32 && #[trigger] spec_get_bit(a ^ b, k) ==> spec_get_bit(a, k) != spec_get_bit(
                b,
                k,
            ),
{
}

/// Two words with the same bits are equal.
pub proof fn lemma_u32_ext(a: u32, b: u32)
    requires
        forall|k: u32| k < 32 ==> spec_get_bit(a, k) == spec_get_bit(b, k),
    ensures
        a == b,
{
    if a != b {
        lemma_neq_has_diff_bit(a, b);
        lemma_word_nonzero(a ^ b);
        let k = choose|k: u32| k < 32 && spec_get_bit(a ^ b, k);
        assert(spec_get_bit(a, k) != spec_get_bit(b, k));
    }
}

// ---------------------------------------------------------------------
// The square/index correspondence.
// ---------------------------------------------------------------------

// ---------------------------------------------------------------------
// What a directional shift does to each square.
// ---------------------------------------------------------------------

proof fn lemma_ne_even_src(b: u32, s: u32, t: u32)
    by (bit_vector)
    requires
        s < 32,
        t < 32,
        t == s + 4,
        (s / 4) % 2 == 0,
    ensures
        spec_get_bit(spec_move_ne(b), t) == spec_get_bit(b, s),
{
}

proof fn lemma_ne_odd_src(b: u32, s: u32, t: u32)
    by (bit_vector)
    requires
        s < 32,
        t < 32,
        t == s + 5,
        (s / 4) % 2 == 1,
        s % 4 != 3,
    ensures
        spec_get_bit(spec_move_ne(b), t) == spec_get_bit(b, s),
{
}

proof fn lemma_ne_no_src(b: u32, t: u32)
    by (bit_vector)
    requires
        t < 32,
        (t / 4) % 2 == 0,
        t < 4 || t % 4 == 0,
    ensures
        !spec_get_bit(spec_move_ne(b), t),
{
}

proof fn lemma_nw_even_src(b: u32, s: u32, t: u32)
    by (bit_vector)
    requires
        s < 32,
        t < 32,
        t == s + 3,
        (s / 4) % 2 == 0,
        s % 4 != 0,
    ensures
        spec_get_bit(spec_move_nw(b), t) == spec_get_bit(b, s),
{
}

proof fn lemma_nw_odd_src(b: u32, s: u32, t: u32)
    by (bit_vector)
    requires
        s < 32,
        t < 32,
        t == s + 4,
        (s / 4) % 2 == 1,
    ensures
        spec_get_bit(spec_move_nw(b), t) == spec_get_bit(b, s),
{
}

proof fn lemma_nw_no_src(b: u32, t: u32)
    by (bit_vector)
    requires
        t < 32,
        t < 4 || ((t / 4) % 2 == 1 && t % 4 == 3),
    ensures
        !spec_get_bit(spec_move_nw(b), t),
{
}

proof fn lemma_se_even_src(b: u32, s: u32, t: u32)
    by (bit_vector)
    requires
        s < 32,
        t < 32,
        s == t + 4,
        (s / 4) % 2 == 0,
    ensures
        spec_get_bit(spec_move_se(b), t) == spec_get_bit(b, s),
{
}

proof fn lemma_se_odd_src(b: u32, s: u32, t: u32)
    by (bit_vector)
    requires
        s < 32,
        t < 32,
        s == t + 3,
        (s / 4) % 2 == 1,
        s % 4 != 3,
    ensures
        spec_get_bit(spec_move_se(b), t) == spec_get_bit(b, s),
{
}

proof fn lemma_se_no_src(b: u32, t: u32)
    by (bit_vector)
    requires
        t < 32,
        t >= 28 || ((t / 4) % 2 == 0 && t % 4 == 0),
    ensures
        !spec_get_bit(spec_move_se(b), t),
{
}

proof fn lemma_sw_even_src(b: u32, s: u32, t: u32)
    by (bit_vector)
    requires
        s < 32,
        t < 32,
        s == t + 5,
        (s / 4) % 2 == 0,
        s % 4 != 0,
    ensures
        spec_get_bit(spec_move_sw(b), t) == spec_get_bit(b, s),
{
}

proof fn lemma_sw_odd_src(b: u32, s: u32, t: u32)
    by (bit_vector)
    requires
        s < 32,
        t < 32,
        s == t + 4,
        (s / 4) % 2 == 1,
    ensures
        spec_get_bit(spec_move_sw(b), t) == spec_get_bit(b, s),
{
}

proof fn lemma_sw_no_src(b: u32, t: u32)
    by (bit_vector)
    requires
        t < 32,
        t >= 28 || ((t / 4) % 2 == 1 && t % 4 == 3),
    ensures
        !spec_get_bit(spec_move_sw(b), t),
{
}

/// `sq(x, y)` splits back into its row and its column.
pub proof fn lemma_sq_decompose(x: int, y: int)
    requires
        spec_is_playable(x, y),
    ensures
        0 <= sq(x, y) < 32,
        sq(x, y) / 4 == y,
        sq(x, y) % 4 == x / 2,
        x % 2 == y % 2,
{
    let n = sq(x, y);
    assert(0 <= x / 2 < 4);
    assert(n / 4 == y && n % 4 == x / 2) by (nonlinear_arith)
        requires
            n == y * 4 + x / 2,
            0 <= x / 2 < 4,
            0 <= y < 8,
    ;
    assert(x % 2 == y % 2) by {
        assert((x + y) % 2 == 0);
    };
}

/// A directional shift moves every piece one square along the direction:
/// the target square `(x, y)` of the shifted word is occupied exactly when
/// the source square `(x - dx, y - dy)` exists and is occupied in the
/// original word.
pub proof fn lemma_move_direction_bit(b: u32, x: int, y: int, dx: int, dy: int)
    requires
        spec_is_playable(x, y),
        dx == 1 || dx == -1,
        dy == 1 || dy == -1,
    ensures
        spec_get_bit(spec_move_direction(b, dx, dy), sq(x, y) as u32) == (spec_is_playable(
            x - dx,
            y - dy,
        ) && spec_get_bit(b, sq(x - dx, y - dy) as u32)),
{
    lemma_sq_decompose(x, y);
    let t = sq(x, y);
    let m = x / 2;
    assert(x == 2 * m + x % 2);
    assert((x - dx + (y - dy)) % 2 == 0) by {
        assert(x - dx + (y - dy) == x + y - (dx + dy));
        assert(dx + dy == 2 || dx + dy == 0 || dx + dy == -2);
    };
    let sx = x - dx;
    let sy = y - dy;
    if dx == 1 && dy == 1 {
        if x >= 1 && y >= 1 {
            lemma_sq_decompose(sx, sy);
            let s = sq(sx, sy);
            if y % 2 == 1 {
                assert(sx / 2 == m) by {
                    assert(sx == 2 * m);
                };
                lemma_ne_even_src(b, s as u32, t as u32);
            } else {
                assert(sx / 2 == m - 1) by {
                    assert(sx == 2 * (m - 1) + 1);
                };
                lemma_ne_odd_src(b, s as u32, t as u32);
            }
        } else {
            lemma_ne_no_src(b, t as u32);
        }
    } else if dx == -1 && dy == 1 {
        if x <= 6 && y >= 1 {
            lemma_sq_decompose(sx, sy);
            let s = sq(sx, sy);
            if y % 2 == 1 {
                assert(sx / 2 == m + 1) by {
                    assert(sx == 2 * (m + 1));
                };
                lemma_nw_even_src(b, s as u32, t as u32);
            } else {
                assert(sx / 2 == m) by {
                    assert(sx == 2 * m + 1);
                };
                lemma_nw_odd_src(b, s as u32, t as u32);
            }
        } else {
            lemma_nw_no_src(b, t as u32);
        }
    } else if dx == 1 && dy == -1 {
        if x >= 1 && y <= 6 {
            lemma_sq_decompose(sx, sy);
            let s = sq(sx, sy);
            if y % 2 == 1 {
                assert(sx / 2 == m) by {
                    assert(sx == 2 * m);
                };
                lemma_se_even_src(b, s as u32, t as u32);
            } else {
                assert(sx / 2 == m - 1) by {
                    assert(sx == 2 * (m - 1) + 1);
                };
                lemma_se_odd_src(b, s as u32, t as u32);
            }
        } else {
            lemma_se_no_src(b, t as u32);
        }
    } else {
        if x <= 6 && y <= 6 {
            lemma_sq_decompose(sx, sy);
            let s = sq(sx, sy);
            if y % 2 == 1 {
                assert(sx / 2 == m + 1) by {
                    assert(sx == 2 * (m + 1));
                };
                lemma_sw_even_src(b, s as u32, t as u32);
            } else {
                assert(sx / 2 == m) by {
                    assert(sx == 2 * m + 1);
                };
                lemma_sw_odd_src(b, s as u32, t as u32);
            }
        } else {
            lemma_sw_no_src(b, t as u32);
        }
    }
}

pub proof fn lemma_sq_range(x: int, y: int)
    requires
        spec_is_playable(x, y),
    ensures
        0 <= sq(x, y) < 32,
        x_of(sq(x, y)) == x,
        y_of(sq(x, y)) == y,
{
    let n = sq(x, y);
    assert(0 <= x / 2 < 4);
    assert(n == y * 4 + x / 2);
    assert(n / 4 == y && n % 4 == x / 2) by (nonlinear_arith)
        requires
            n == y * 4 + x / 2,
            0 <= x / 2 < 4,
            0 <= y < 8,
    ;
    assert(x % 2 == y % 2) by {
        assert((x + y) % 2 == 0);
    };
    assert(2 * (x / 2) + x % 2 == x);
    assert(x_of(n) == 2 * (x / 2) + y % 2);
}

pub proof fn lemma_index_square(n: int)
    requires
        0 <= n < 32,
    ensures
        spec_is_playable(x_of(n), y_of(n)),
        sq(x_of(n), y_of(n)) == n,
{
    let x = x_of(n);
    let y = y_of(n);
    assert(0 <= n % 4 < 4);
    assert(0 <= n / 4 < 8);
    assert(x == 2 * (n % 4) + y % 2);
    assert((x + y) % 2 == 0) by {
        assert(x + y == 2 * (n % 4) + y % 2 + y);
        assert(y % 2 + y == 2 * (y / 2) + 2 * (y % 2));
    };
    assert(x / 2 == n % 4);
    assert(sq(x, y) == y * 4 + n % 4);
    assert(y * 4 + n % 4 == n) by {
        assert(n == 4 * (n / 4) + n % 4);
    };
}

} // verus!
