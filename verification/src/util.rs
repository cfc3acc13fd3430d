//! Naming squares and moves, for display.

use vstd::prelude::*;
use vstd::string::StringExecFns;
use crate::bitboard::in_board;
use crate::board::Move;

verus! {

/// The letter of a file, `A` through `H`.
pub open spec fn spec_char_of_x(x: int) -> char {
    if x == 0 {
        'A'
    } else if x == 1 {
        'B'
    } else if x == 2 {
        'C'
    } else if x == 3 {
        'D'
    } else if x == 4 {
        'E'
    } else if x == 5 {
        'F'
    } else if x == 6 {
        'G'
    } else {
        'H'
    }
}

/// The digit of a rank, `1` through `8`.
pub open spec fn spec_char_of_y(y: int) -> char {
    if y == 0 {
        '1'
    } else if y == 1 {
        '2'
    } else if y == 2 {
        '3'
    } else if y == 3 {
        '4'
    } else if y == 4 {
        '5'
    } else if y == 5 {
        '6'
    } else if y == 6 {
        '7'
    } else {
        '8'
    }
}

pub fn char_of_x(x: i8) -> (r: char)
    requires
        0 <= x < 8,
    ensures
        r == spec_char_of_x(x as int),
{
    if x == 0 {
        'A'
    } else if x == 1 {
        'B'
    } else if x == 2 {
        'C'
    } else if x == 3 {
        'D'
    } else if x == 4 {
        'E'
    } else if x == 5 {
        'F'
    } else if x == 6 {
        'G'
    } else {
        'H'
    }
}

pub fn char_of_y(y: i8) -> (r: char)
    requires
        0 <= y < 8,
    ensures
        r == spec_char_of_y(y as int),
{
    if y == 0 {
        '1'
    } else if y == 1 {
        '2'
    } else if y == 2 {
        '3'
    } else if y == 3 {
        '4'
    } else if y == 4 {
        '5'
    } else if y == 5 {
        '6'
    } else if y == 6 {
        '7'
    } else {
        '8'
    }
}

fn str_of_x(x: i8) -> (r: &'static str)
    requires
        0 <= x < 8,
    ensures
        r@ =~= seq![spec_char_of_x(x as int)],
{
    proof {
        reveal_strlit("A");
        reveal_strlit("B");
        reveal_strlit("C");
        reveal_strlit("D");
        reveal_strlit("E");
        reveal_strlit("F");
        reveal_strlit("G");
        reveal_strlit("H");
    }
    if x == 0 {
        "A"
    } else if x == 1 {
        "B"
    } else if x == 2 {
        "C"
    } else if x == 3 {
        "D"
    } else if x == 4 {
        "E"
    } else if x == 5 {
        "F"
    } else if x == 6 {
        "G"
    } else {
        "H"
    }
}

fn str_of_y(y: i8) -> (r: &'static str)
    requires
        0 <= y < 8,
    ensures
        r@ =~= seq![spec_char_of_y(y as int)],
{
    proof {
        reveal_strlit("1");
        reveal_strlit("2");
        reveal_strlit("3");
        reveal_strlit("4");
        reveal_strlit("5");
        reveal_strlit("6");
        reveal_strlit("7");
        reveal_strlit("8");
    }
    if y == 0 {
        "1"
    } else if y == 1 {
        "2"
    } else if y == 2 {
        "3"
    } else if y == 3 {
        "4"
    } else if y == 4 {
        "5"
    } else if y == 5 {
        "6"
    } else if y == 6 {
        "7"
    } else {
        "8"
    }
}

/// The squares of a move from index `i` on, with arrows between.
pub open spec fn move_str_from(m: Seq<(i8, i8)>, i: int) -> Seq<char>
    decreases m.len() - i,
{
    if i < 0 || i >= m.len() {
        Seq::empty()
    } else {
        (if i > 0 {
            seq![' ', '-', '>', ' ']
        } else {
            Seq::<char>::empty()
        }) + seq![spec_char_of_x(m[i].0 as int), spec_char_of_y(m[i].1 as int)] + move_str_from(
            m,
            i + 1,
        )
    }
}

/// A move written out, as in `A3 -> B4`.
pub open spec fn spec_string_of_move(m: Seq<(i8, i8)>) -> Seq<char> {
    move_str_from(m, 0)
}

pub fn string_of_move(m: &Move) -> (r: String)
    requires
        forall|j: int|
            0 <= j < m@.len() ==> in_board((#[trigger] m@[j]).0 as int, m@[j].1 as int),
    ensures
        r@ == spec_string_of_move(m@),
{
    let mut s = String::new();
    let n = m.len();
    let mut i: usize = 0;
    proof {
        assert(s@ + move_str_from(m@, 0) =~= move_str_from(m@, 0));
    }
    while i < n
        invariant
            0 <= i <= n,
            n == m@.len(),
            forall|j: int|
                0 <= j < m@.len() ==> in_board((#[trigger] m@[j]).0 as int, m@[j].1 as int),
            s@ + move_str_from(m@, i as int) == spec_string_of_move(m@),
        decreases n - i,
    {
        let ghost s0 = s@;
        let (x, y) = m[i];
        if i > 0 {
            s.append(" -> ");
            proof {
                reveal_strlit(" -> ");
            }
        }
        s.append(str_of_x(x));
        s.append(str_of_y(y));
        proof {
            let sep: Seq<char> = if i > 0 {
                seq![' ', '-', '>', ' ']
            } else {
                Seq::<char>::empty()
            };
            if i > 0 {
                assert(" -> "@ =~= seq![' ', '-', '>', ' ']);
            }
            assert(s@ =~= s0 + sep + seq![
                spec_char_of_x(x as int),
                spec_char_of_y(y as int),
            ]);
            assert(move_str_from(m@, i as int) == sep + seq![
                spec_char_of_x(x as int),
                spec_char_of_y(y as int),
            ] + move_str_from(m@, i + 1));
            assert(s@ + move_str_from(m@, i + 1) =~= s0 + move_str_from(m@, i as int));
        }
        i += 1;
    }
    proof {
        assert(move_str_from(m@, n as int) =~= Seq::<char>::empty());
        assert(s@ + Seq::<char>::empty() =~= s@);
    }
    s
}

} // verus!
