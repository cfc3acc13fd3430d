//! Lexicographic ordering of moves, so that the generator's output is
//! deterministic.

use vstd::prelude::*;
use crate::board::Move;

verus! {

/// Lexicographic order on coordinate pairs.
pub open spec fn coord_le(a: (i8, i8), b: (i8, i8)) -> bool {
    a.0 < b.0 || (a.0 == b.0 && a.1 <= b.1)
}

/// Lexicographic order on coordinate sequences, a shorter sequence coming
/// before its extensions.
pub open spec fn chain_le(a: Seq<(i8, i8)>, b: Seq<(i8, i8)>) -> bool
    decreases a.len(),
{
    if a.len() == 0 {
        true
    } else if b.len() == 0 {
        false
    } else if a[0] == b[0] {
        chain_le(a.drop_first(), b.drop_first())
    } else {
        coord_le(a[0], b[0])
    }
}

pub open spec fn insert_sorted(c: Seq<(i8, i8)>, s: Seq<Seq<(i8, i8)>>) -> Seq<Seq<(i8, i8)>>
    decreases s.len(),
{
    if s.len() == 0 {
        seq![c]
    } else if chain_le(c, s[0]) {
        seq![c] + s
    } else {
        seq![s[0]] + insert_sorted(c, s.drop_first())
    }
}

/// Insertion sort of a sequence of moves.
pub open spec fn sort_spec(s: Seq<Seq<(i8, i8)>>) -> Seq<Seq<(i8, i8)>>
    decreases s.len(),
{
    if s.len() == 0 {
        Seq::empty()
    } else {
        insert_sorted(s[0], sort_spec(s.drop_first()))
    }
}

proof fn lemma_insert_sorted_len(c: Seq<(i8, i8)>, s: Seq<Seq<(i8, i8)>>)
    ensures
        insert_sorted(c, s).len() == s.len() + 1,
    decreases s.len(),
{
    if s.len() == 0 {
    } else if chain_le(c, s[0]) {
    } else {
        lemma_insert_sorted_len(c, s.drop_first());
    }
}

/// Sorting keeps the length.
pub proof fn lemma_sort_len(s: Seq<Seq<(i8, i8)>>)
    ensures
        sort_spec(s).len() == s.len(),
    decreases s.len(),
{
    if s.len() == 0 {
    } else {
        lemma_sort_len(s.drop_first());
        lemma_insert_sorted_len(s[0], sort_spec(s.drop_first()));
    }
}

proof fn lemma_insert_sorted_membership(c: Seq<(i8, i8)>, s: Seq<Seq<(i8, i8)>>, m: Seq<(i8, i8)>)
    ensures
        insert_sorted(c, s).contains(m) == (m == c || s.contains(m)),
    decreases s.len(),
{
    if s.len() == 0 {
        assert(insert_sorted(c, s) == seq![c]);
        assert(insert_sorted(c, s).contains(m) == (m == c)) by {
            if m == c {
                assert(insert_sorted(c, s)[0] == c);
            }
        };
    } else if chain_le(c, s[0]) {
        let r = seq![c] + s;
        if m == c {
            assert(r[0] == c);
        }
        if s.contains(m) {
            let i = choose|i: int| 0 <= i < s.len() && s[i] == m;
            assert(r[i + 1] == m);
        }
        if r.contains(m) {
            let i = choose|i: int| 0 <= i < r.len() && r[i] == m;
            if i > 0 {
                assert(s[i - 1] == m);
            }
        }
    } else {
        lemma_insert_sorted_membership(c, s.drop_first(), m);
        let r = seq![s[0]] + insert_sorted(c, s.drop_first());
        if m == s[0] {
            assert(r[0] == m);
        }
        if s.contains(m) {
            let i = choose|i: int| 0 <= i < s.len() && s[i] == m;
            if i > 0 {
                assert(s.drop_first()[i - 1] == m);
            }
        }
        if insert_sorted(c, s.drop_first()).contains(m) {
            let i = choose|i: int|
                0 <= i < insert_sorted(c, s.drop_first()).len() && insert_sorted(
                    c,
                    s.drop_first(),
                )[i] == m;
            assert(r[i + 1] == m);
        }
        if r.contains(m) {
            let i = choose|i: int| 0 <= i < r.len() && r[i] == m;
            if i > 0 {
                assert(insert_sorted(c, s.drop_first())[i - 1] == m);
            }
        }
        if m != s[0] && s.contains(m) {
            let i = choose|i: int| 0 <= i < s.len() && s[i] == m;
            assert(i > 0);
            assert(s.drop_first()[i - 1] == m);
        }
    }
}

/// Sorting keeps exactly the members.
pub proof fn lemma_sort_membership(s: Seq<Seq<(i8, i8)>>, m: Seq<(i8, i8)>)
    ensures
        sort_spec(s).contains(m) == s.contains(m),
    decreases s.len(),
{
    if s.len() == 0 {
    } else {
        lemma_sort_membership(s.drop_first(), m);
        lemma_insert_sorted_membership(s[0], sort_spec(s.drop_first()), m);
        if m == s[0] {
            assert(s.contains(m)) by {
                assert(s[0] == m);
            };
        }
        if s.contains(m) && m != s[0] {
            let i = choose|i: int| 0 <= i < s.len() && s[i] == m;
            assert(i > 0);
            assert(s.drop_first()[i - 1] == m);
        }
        if s.drop_first().contains(m) {
            let i = choose|i: int| 0 <= i < s.drop_first().len() && s.drop_first()[i] == m;
            assert(s[i + 1] == m);
        }
    }
}

/// A move's deep view is its view.
pub proof fn lemma_move_deep_view(m: Move)
    ensures
        m.deep_view() =~= m@,
{
    assert forall|i: int| 0 <= i < m@.len() implies m.deep_view()[i] == m@[i] by {
        assert(m.deep_view()[i] == m@[i].deep_view());
        assert(m@[i].deep_view() == (m@[i].0, m@[i].1));
    };
}

/// Elementwise reading of a move list's deep view.
pub proof fn lemma_moves_deep_view(v: Vec<Move>)
    ensures
        v.deep_view().len() == v@.len(),
        forall|i: int| 0 <= i < v@.len() ==> #[trigger] v.deep_view()[i] == v@[i]@,
{
    assert forall|i: int| 0 <= i < v@.len() implies #[trigger] v.deep_view()[i] == v@[i]@ by {
        assert(v.deep_view()[i] == v@[i].deep_view());
        lemma_move_deep_view(v@[i]);
    };
}

/// Does `a` come no later than `b` in the move order?
pub fn move_le(a: &Move, b: &Move) -> (r: bool)
    ensures
        r == chain_le(a@, b@),
{
    let mut i: usize = 0;
    let na = a.len();
    let nb = b.len();
    proof {
        assert(a@.skip(0) =~= a@);
        assert(b@.skip(0) =~= b@);
    }
    while i < na && i < nb
        invariant
            0 <= i <= na,
            0 <= i <= nb,
            na == a@.len(),
            nb == b@.len(),
            chain_le(a@, b@) == chain_le(a@.skip(i as int), b@.skip(i as int)),
            forall|j: int| 0 <= j < i ==> a@[j] == b@[j],
        decreases na - i,
    {
        let (ax, ay) = a[i];
        let (bx, by) = b[i];
        proof {
            let sa = a@.skip(i as int);
            let sb = b@.skip(i as int);
            assert(sa[0] == a@[i as int]);
            assert(sb[0] == b@[i as int]);
            assert(sa.drop_first() =~= a@.skip(i + 1));
            assert(sb.drop_first() =~= b@.skip(i + 1));
        }
        if ax != bx || ay != by {
            return if ax < bx {
                true
            } else if ax > bx {
                false
            } else {
                ay < by
            };
        }
        i += 1;
    }
    proof {
        let sa = a@.skip(i as int);
        let sb = b@.skip(i as int);
        if i == na {
            assert(sa.len() == 0);
        } else {
            assert(sb.len() == 0);
            assert(sa.len() > 0);
        }
    }
    na <= nb
}

/// Insertion sort.  The result is the specification-level sort of the
/// input, hence a sorted permutation of it.
pub fn sort_moves(moves: Vec<Move>) -> (r: Vec<Move>)
    ensures
        r.deep_view() == sort_spec(moves.deep_view()),
{
    let n = moves.len();
    let mut sorted: Vec<Move> = Vec::new();
    let mut i: usize = n;
    proof {
        lemma_moves_deep_view(moves);
        assert(moves.deep_view().skip(n as int) =~= Seq::<Seq<(i8, i8)>>::empty());
    }
    while i > 0
        invariant
            0 <= i <= n,
            n == moves@.len(),
            moves.deep_view().len() == moves@.len(),
            forall|j: int| 0 <= j < moves@.len() ==> #[trigger] moves.deep_view()[j] == moves@[j]@,
            sorted.deep_view() == sort_spec(moves.deep_view().skip(i as int)),
        decreases i,
    {
        i -= 1;
        let ghost before = sorted.deep_view();
        let c = &moves[i];
        // Find the insertion point.
        let mut k: usize = 0;
        proof {
            lemma_moves_deep_view(sorted);
        }
        while k < sorted.len() && !move_le(c, &sorted[k])
            invariant
                0 <= k <= sorted@.len(),
                sorted.deep_view() == before,
                before.len() == sorted@.len(),
                forall|j: int| 0 <= j < sorted@.len() ==> #[trigger] before[j] == sorted@[j]@,
                c@ == moves@[i as int]@,
                forall|j: int| 0 <= j < k ==> !chain_le(c@, #[trigger] before[j]),
            decreases sorted@.len() - k,
        {
            k += 1;
        }
        let mut cc: Move = Vec::new();
        let mut p: usize = 0;
        let cl = c.len();
        while p < cl
            invariant
                0 <= p <= cl,
                cl == c@.len(),
                c@ == moves@[i as int]@,
                cc@ =~= c@.take(p as int),
            decreases cl - p,
        {
            cc.push(c[p]);
            p += 1;
        }
        proof {
            assert(cc@ =~= c@);
        }
        sorted.insert(k, cc);
        proof {
            lemma_insert_at_point(c@, before, k as int);
            lemma_moves_deep_view(sorted);
            assert(sorted.deep_view() =~= before.insert(k as int, c@)) by {
                assert(sorted@ =~= sorted@);
                assert(forall|j: int| 0 <= j < sorted@.len() ==> #[trigger] sorted.deep_view()[j]
                    == sorted@[j]@);
            };
            let s = moves.deep_view();
            assert(s[i as int] == c@);
            assert(s.skip(i as int).drop_first() =~= s.skip(i + 1));
            assert(s.skip(i as int)[0] == s[i as int]);
        }
    }
    proof {
        assert(moves.deep_view().skip(0) =~= moves.deep_view());
    }
    sorted
}

/// Inserting at the first position whose element is not below `c` is what
/// the specification's recursive insertion does.
proof fn lemma_insert_at_point(c: Seq<(i8, i8)>, s: Seq<Seq<(i8, i8)>>, k: int)
    requires
        0 <= k <= s.len(),
        forall|j: int| 0 <= j < k ==> !chain_le(c, #[trigger] s[j]),
        k < s.len() ==> chain_le(c, s[k]),
    ensures
        insert_sorted(c, s) == s.insert(k, c),
    decreases s.len(),
{
    if s.len() == 0 {
        assert(insert_sorted(c, s) =~= s.insert(0, c));
    } else if chain_le(c, s[0]) {
        assert(k == 0);
        assert(insert_sorted(c, s) =~= s.insert(0, c));
    } else {
        assert(k > 0);
        assert(forall|j: int| 0 <= j < k - 1 ==> !chain_le(c, #[trigger] s.drop_first()[j]));
        assert(k - 1 < s.drop_first().len() ==> chain_le(c, s.drop_first()[k - 1]));
        lemma_insert_at_point(c, s.drop_first(), k - 1);
        assert(insert_sorted(c, s) =~= s.insert(k, c)) by {
            assert(insert_sorted(c, s) == seq![s[0]] + s.drop_first().insert(k - 1, c));
            assert(seq![s[0]] + s.drop_first().insert(k - 1, c) =~= s.insert(k, c));
        };
    }
}

} // verus!
