//! Fail-soft negamax alpha-beta with a per-call bound-window cache.
//!
//! The reference value is `negamax`: the exhaustive full-width game-tree
//! value, every child searched, no pruning and no cache.  The search's
//! contract relates what it returns to that value, so pruning and
//! caching can never change the answer, only the cost of computing it.

use vstd::prelude::*;
use crate::board::{spec_is_end, Board, BoardHash, BoardView};
use crate::cancel::CancelFlag;
use crate::chains::{lemma_not_end_moves_nonempty, lemma_spec_play_wf_boards, spec_play};
use crate::move_sort::lemma_moves_deep_view;
use crate::movegen::spec_possible_moves;
use crate::score::{Evaluator, NEG_INFINITY, POS_INFINITY};

verus! {

// ---------------------------------------------------------------------
// The reference value of a position.
// ---------------------------------------------------------------------

/// The value of playing `m` from `v`, the mover's point of view: the
/// child's value, negated.
pub open spec fn move_value<E: Evaluator>(e: &E, v: BoardView, m: Seq<(i8, i8)>, d: nat) -> int
    decreases d, 2nat, 0nat,
{
    -negamax(e, spec_play(v, m), d)
}

/// The exhaustive full-width game-tree value of `v` at depth `d`, the
/// mover's point of view.
pub open spec fn negamax<E: Evaluator>(e: &E, v: BoardView, d: nat) -> int
    decreases d, 1nat, 0nat,
{
    if d == 0 || spec_is_end(v) {
        e.spec_score(v)
    } else {
        children_best(e, v, spec_possible_moves(v), d)
    }
}

/// The best value among the moves of `ms`, played from `v`.
pub open spec fn children_best<E: Evaluator>(
    e: &E,
    v: BoardView,
    ms: Seq<Seq<(i8, i8)>>,
    d: nat,
) -> int
    decreases d, 0nat, ms.len(),
{
    if d == 0 || ms.len() == 0 {
        NEG_INFINITY as int
    } else if ms.len() == 1 {
        move_value(e, v, ms[0], (d - 1) as nat)
    } else {
        let val = move_value(e, v, ms[0], (d - 1) as nat);
        let rest = children_best(e, v, ms.drop_first(), d);
        if val >= rest {
            val
        } else {
            rest
        }
    }
}

/// The best value is attained by some member move and dominates every
/// member move.
pub proof fn lemma_children_best_char<E: Evaluator>(
    e: &E,
    v: BoardView,
    ms: Seq<Seq<(i8, i8)>>,
    d: nat,
)
    requires
        d > 0,
        ms.len() > 0,
    ensures
        exists|m: Seq<(i8, i8)>|
            #[trigger] ms.contains(m) && children_best(e, v, ms, d) == move_value(
                e,
                v,
                m,
                (d - 1) as nat,
            ),
        forall|m: Seq<(i8, i8)>|
            #[trigger] ms.contains(m) ==> move_value(e, v, m, (d - 1) as nat) <= children_best(
                e,
                v,
                ms,
                d,
            ),
    decreases ms.len(),
{
    let val = move_value(e, v, ms[0], (d - 1) as nat);
    let rest = children_best(e, v, ms.drop_first(), d);
    assert(ms.contains(ms[0]));
    if ms.len() == 1 {
        assert(children_best(e, v, ms, d) == val);
        assert forall|m: Seq<(i8, i8)>| #[trigger] ms.contains(m) implies move_value(
            e,
            v,
            m,
            (d - 1) as nat,
        ) <= children_best(e, v, ms, d) by {
            let i = choose|i: int| 0 <= i < ms.len() && ms[i] == m;
            assert(m == ms[0]);
        };
    } else {
        lemma_children_best_char(e, v, ms.drop_first(), d);
        let mr = choose|m: Seq<(i8, i8)>|
            #[trigger] ms.drop_first().contains(m) && children_best(e, v, ms.drop_first(), d)
                == move_value(e, v, m, (d - 1) as nat);
        assert(ms.contains(mr)) by {
            let i = choose|i: int| 0 <= i < ms.drop_first().len() && ms.drop_first()[i] == mr;
            assert(ms[i + 1] == mr);
        };
        assert forall|m: Seq<(i8, i8)>| #[trigger] ms.contains(m) implies move_value(
            e,
            v,
            m,
            (d - 1) as nat,
        ) <= children_best(e, v, ms, d) by {
            let i = choose|i: int| 0 <= i < ms.len() && ms[i] == m;
            if i > 0 {
                assert(ms.drop_first()[i - 1] == m);
                assert(ms.drop_first().contains(m));
            }
        };
    }
}

/// Sequences with the same members have the same best value.
pub proof fn lemma_children_best_same_members<E: Evaluator>(
    e: &E,
    v: BoardView,
    s1: Seq<Seq<(i8, i8)>>,
    s2: Seq<Seq<(i8, i8)>>,
    d: nat,
)
    requires
        d > 0,
        s1.len() > 0,
        s2.len() > 0,
        forall|m: Seq<(i8, i8)>| s1.contains(m) == s2.contains(m),
    ensures
        children_best(e, v, s1, d) == children_best(e, v, s2, d),
{
    lemma_children_best_char(e, v, s1, d);
    lemma_children_best_char(e, v, s2, d);
    let m1 = choose|m: Seq<(i8, i8)>|
        #[trigger] s1.contains(m) && children_best(e, v, s1, d) == move_value(
            e,
            v,
            m,
            (d - 1) as nat,
        );
    let m2 = choose|m: Seq<(i8, i8)>|
        #[trigger] s2.contains(m) && children_best(e, v, s2, d) == move_value(
            e,
            v,
            m,
            (d - 1) as nat,
        );
    assert(s2.contains(m1) && s1.contains(m2));
}

/// The game-tree value never reaches the window sentinels.
pub proof fn lemma_negamax_bounded<E: Evaluator>(e: &E, v: BoardView, d: nat)
    requires
        v.wf_boards(),
    ensures
        -(POS_INFINITY - 1) <= negamax(e, v, d) <= POS_INFINITY - 1,
    decreases d,
{
    if d == 0 || spec_is_end(v) {
        e.lemma_score_bounded(v);
    } else {
        let ms = spec_possible_moves(v);
        lemma_not_end_moves_nonempty(v);
        lemma_children_best_char(e, v, ms, d);
        let m = choose|m: Seq<(i8, i8)>|
            #[trigger] ms.contains(m) && children_best(e, v, ms, d) == move_value(
                e,
                v,
                m,
                (d - 1) as nat,
            );
        lemma_spec_play_wf_boards(v, m);
        lemma_negamax_bounded(e, spec_play(v, m), (d - 1) as nat);
    }
}

// ---------------------------------------------------------------------
// The bound-window cache.
// ---------------------------------------------------------------------

/// One proven window: for the stored position at the stored remaining
/// depth, the true value lies within `[min, max]`.
pub struct CacheEntry {
    pub key: BoardHash,
    pub depth: i8,
    pub state: Board,
    pub min: i64,
    pub max: i64,
}

/// The per-search, per-thread score-window cache, keyed by position hash
/// and remaining depth.
pub struct SearchCache {
    pub entries: Vec<CacheEntry>,
}

pub open spec fn entry_ok<E: Evaluator>(e: &E, ent: &CacheEntry) -> bool {
    &&& ent.state@.wf()
    &&& ent.key == ent.state@.hash()
    &&& 0 <= ent.depth
    &&& NEG_INFINITY as int <= ent.min
    &&& ent.max <= POS_INFINITY as int
    &&& ent.min as int <= negamax(e, ent.state@, ent.depth as nat)
    &&& negamax(e, ent.state@, ent.depth as nat) <= ent.max as int
}

/// Every window the cache holds is true of its position.
pub open spec fn cache_ok<E: Evaluator>(e: &E, c: &SearchCache) -> bool {
    forall|i: int| 0 <= i < c.entries@.len() ==> entry_ok(e, #[trigger] &c.entries@[i])
}

impl SearchCache {
    pub fn new() -> (r: SearchCache)
        ensures
            r.entries@.len() == 0,
    {
        SearchCache { entries: Vec::new() }
    }
}

/// Do two boards agree in everything their value can depend on?  The
/// hash covers the bitboards and the mover; this compares the counters
/// and the repetition record as well, so a hit is only taken when the
/// cached window provably applies.
fn same_position(a: &Board, b: &Board) -> (r: bool)
    ensures
        r == (a@ == b@),
{
    if !(a.hash() == b.hash()) {
        return false;
    }
    if a.get_moves_without_capture() != b.get_moves_without_capture() {
        return false;
    }
    if a.board_count.len() != b.board_count.len() {
        return false;
    }
    let n = a.board_count.len();
    let mut i: usize = 0;
    while i < n
        invariant
            0 <= i <= n,
            n == a.board_count@.len(),
            n == b.board_count@.len(),
            forall|j: int| 0 <= j < i ==> a.board_count@[j] == b.board_count@[j],
        decreases n - i,
    {
        let (ha, ca) = a.board_count[i];
        let (hb, cb) = b.board_count[i];
        if !(ha == hb) || ca != cb {
            return false;
        }
        i += 1;
    }
    proof {
        assert(a.board_count@ =~= b.board_count@);
        assert(a@ == b@);
    }
    true
}

/// Look for a proven window for this position at this depth.  A hit is
/// taken only when the stored position is the current one in every
/// value-relevant part, so the window provably applies.
fn cache_lookup<E: Evaluator>(e: &E, cache: &SearchCache, board: &Board, depth: i8) -> (r: Option<
    (i64, i64),
>)
    requires
        cache_ok(e, cache),
        0 <= depth,
    ensures
        r matches Some(w) ==> ({
            &&& NEG_INFINITY as int <= w.0
            &&& w.1 <= POS_INFINITY as int
            &&& w.0 as int <= negamax(e, board@, depth as nat)
            &&& negamax(e, board@, depth as nat) <= w.1 as int
        }),
{
    let h = board.hash();
    let n = cache.entries.len();
    let mut i: usize = 0;
    while i < n
        invariant
            0 <= i <= n,
            n == cache.entries@.len(),
            cache_ok(e, cache),
        decreases n - i,
    {
        let ent = &cache.entries[i];
        if ent.key == h && ent.depth == depth {
            if same_position(&ent.state, board) {
                proof {
                    assert(entry_ok(e, &cache.entries@[i as int]));
                }
                return Some((ent.min, ent.max));
            }
        }
        i += 1;
    }
    None
}

/// Merge a finished search result into the cache, and hand back the
/// stored lower bound, which is what the search returns.  Fail-low
/// tightens the upper bound, fail-high the lower bound, and an interior
/// score is stored exact.
fn cache_store<E: Evaluator>(
    e: &E,
    cache: &mut SearchCache,
    board: &Board,
    depth: i8,
    score: i64,
    alpha: i64,
    beta: i64,
) -> (r: i64)
    requires
        cache_ok(e, old(cache)),
        board@.wf(),
        0 <= depth,
        -(POS_INFINITY + 1) <= alpha < beta <= POS_INFINITY + 1,
        score <= alpha ==> negamax(e, board@, depth as nat) <= alpha,
        score >= beta ==> negamax(e, board@, depth as nat) >= beta,
        alpha < score < beta ==> score as int == negamax(e, board@, depth as nat),
    ensures
        cache_ok(e, final(cache)),
        ({
            let val = negamax(e, board@, depth as nat);
            &&& alpha < r < beta ==> r == val
            &&& r <= alpha ==> val <= alpha
            &&& r >= beta ==> val >= beta
            &&& -(POS_INFINITY + 1) <= r <= POS_INFINITY + 1
        }),
{
    proof {
        lemma_negamax_bounded(e, board@, depth as nat);
    }
    let ghost val = negamax(e, board@, depth as nat);
    let h = board.hash();
    let n = cache.entries.len();
    let mut i: usize = 0;
    let mut found = n;
    while i < n
        invariant_except_break
            0 <= i <= n,
            found == n,
        invariant
            n == cache.entries@.len(),
            cache_ok(e, cache),
            cache == old(cache),
        ensures
            found == n || (found < n && cache.entries@[found as int].depth == depth
                && cache.entries@[found as int].state@ == board@),
        decreases n - i,
    {
        let ent = &cache.entries[i];
        if ent.key == h && ent.depth == depth {
            if same_position(&ent.state, board) {
                found = i;
                break ;
            }
        }
        i += 1;
    }
    let mut min_old: i64 = NEG_INFINITY;
    let mut max_old: i64 = POS_INFINITY;
    if found < n {
        min_old = cache.entries[found].min;
        max_old = cache.entries[found].max;
        proof {
            assert(entry_ok(e, &cache.entries@[found as int]));
        }
    }
    proof {
        assert(NEG_INFINITY as int <= min_old && max_old <= POS_INFINITY as int);
        assert(min_old as int <= val && val <= max_old as int);
    }
    let (nmin, nmax): (i64, i64) = if score <= alpha {
        (min_old, if max_old < alpha {
            max_old
        } else {
            alpha
        })
    } else if score >= beta {
        (if min_old > beta {
            min_old
        } else {
            beta
        }, max_old)
    } else {
        (score, score)
    };
    let new_entry = CacheEntry {
        key: h,
        depth,
        state: board.clone(),
        min: nmin,
        max: nmax,
    };
    proof {
        assert(entry_ok(e, &new_entry));
    }
    if found < n {
        cache.entries[found] = new_entry;
        proof {
            assert forall|j: int| 0 <= j < cache.entries@.len() implies entry_ok(
                e,
                #[trigger] &cache.entries@[j],
            ) by {
                if j != found {
                    assert(entry_ok(e, &old(cache).entries@[j]));
                }
            };
        }
    } else {
        cache.entries.push(new_entry);
        proof {
            assert forall|j: int| 0 <= j < cache.entries@.len() implies entry_ok(
                e,
                #[trigger] &cache.entries@[j],
            ) by {
                if j < old(cache).entries@.len() {
                    assert(entry_ok(e, &old(cache).entries@[j]));
                }
            };
        }
    }
    nmin
}

/// An exact copy of a move.
fn clone_move(m: &crate::board::Move) -> (r: crate::board::Move)
    ensures
        r@ == m@,
{
    let mut r: crate::board::Move = Vec::new();
    let mut i: usize = 0;
    let n = m.len();
    while i < n
        invariant
            0 <= i <= n,
            n == m@.len(),
            r@ =~= m@.take(i as int),
        decreases n - i,
    {
        r.push(m[i]);
        i += 1;
    }
    proof {
        assert(m@.take(n as int) =~= m@);
    }
    r
}

// ---------------------------------------------------------------------
// Best move first: a shallow pre-search orders the children.
// ---------------------------------------------------------------------

/// Insert a scored move in front of the first strictly smaller score.
pub open spec fn insert_by_score(
    p: (i64, Seq<(i8, i8)>),
    s: Seq<(i64, Seq<(i8, i8)>)>,
) -> Seq<(i64, Seq<(i8, i8)>)>
    decreases s.len(),
{
    if s.len() == 0 {
        seq![p]
    } else if p.0 >= s[0].0 {
        seq![p] + s
    } else {
        seq![s[0]] + insert_by_score(p, s.drop_first())
    }
}

/// Insertion sort of scored moves, best first.
pub open spec fn sort_by_score(s: Seq<(i64, Seq<(i8, i8)>)>) -> Seq<(i64, Seq<(i8, i8)>)>
    decreases s.len(),
{
    if s.len() == 0 {
        Seq::empty()
    } else {
        insert_by_score(s[0], sort_by_score(s.drop_first()))
    }
}

proof fn lemma_insert_by_score_len(p: (i64, Seq<(i8, i8)>), s: Seq<(i64, Seq<(i8, i8)>)>)
    ensures
        insert_by_score(p, s).len() == s.len() + 1,
    decreases s.len(),
{
    if s.len() == 0 {
    } else if p.0 >= s[0].0 {
    } else {
        lemma_insert_by_score_len(p, s.drop_first());
    }
}

proof fn lemma_insert_by_score_membership(
    p: (i64, Seq<(i8, i8)>),
    s: Seq<(i64, Seq<(i8, i8)>)>,
    q: (i64, Seq<(i8, i8)>),
)
    ensures
        insert_by_score(p, s).contains(q) == (q == p || s.contains(q)),
    decreases s.len(),
{
    if s.len() == 0 {
        if q == p {
            assert(insert_by_score(p, s)[0] == p);
        }
    } else if p.0 >= s[0].0 {
        let r = seq![p] + s;
        if q == p {
            assert(r[0] == p);
        }
        if s.contains(q) {
            let i = choose|i: int| 0 <= i < s.len() && s[i] == q;
            assert(r[i + 1] == q);
        }
        if r.contains(q) {
            let i = choose|i: int| 0 <= i < r.len() && r[i] == q;
            if i > 0 {
                assert(s[i - 1] == q);
            }
        }
    } else {
        lemma_insert_by_score_membership(p, s.drop_first(), q);
        let r = seq![s[0]] + insert_by_score(p, s.drop_first());
        if q == s[0] {
            assert(r[0] == q);
        }
        if q == p {
            let i = choose|i: int|
                0 <= i < insert_by_score(p, s.drop_first()).len() && insert_by_score(
                    p,
                    s.drop_first(),
                )[i] == q;
            assert(r[i + 1] == q);
        }
        if s.contains(q) && q != s[0] {
            let i = choose|i: int| 0 <= i < s.len() && s[i] == q;
            assert(i > 0);
            assert(s.drop_first()[i - 1] == q);
            let j = choose|j: int|
                0 <= j < insert_by_score(p, s.drop_first()).len() && insert_by_score(
                    p,
                    s.drop_first(),
                )[j] == q;
            assert(r[j + 1] == q);
        }
        if r.contains(q) && q != s[0] && q != p {
            let i = choose|i: int| 0 <= i < r.len() && r[i] == q;
            assert(i > 0);
            assert(insert_by_score(p, s.drop_first())[i - 1] == q);
            assert(s.drop_first().contains(q));
            let j = choose|j: int| 0 <= j < s.drop_first().len() && s.drop_first()[j] == q;
            assert(s[j + 1] == q);
        }
    }
}

proof fn lemma_sort_by_score_facts(s: Seq<(i64, Seq<(i8, i8)>)>, q: (i64, Seq<(i8, i8)>))
    ensures
        sort_by_score(s).len() == s.len(),
        sort_by_score(s).contains(q) == s.contains(q),
    decreases s.len(),
{
    if s.len() == 0 {
    } else {
        lemma_sort_by_score_facts(s.drop_first(), q);
        lemma_insert_by_score_len(s[0], sort_by_score(s.drop_first()));
        lemma_insert_by_score_membership(s[0], sort_by_score(s.drop_first()), q);
        if q == s[0] {
            assert(s.contains(q)) by {
                assert(s[0] == q);
            };
        }
        if s.contains(q) && q != s[0] {
            let i = choose|i: int| 0 <= i < s.len() && s[i] == q;
            assert(i > 0);
            assert(s.drop_first()[i - 1] == q);
        }
        if s.drop_first().contains(q) {
            let i = choose|i: int| 0 <= i < s.drop_first().len() && s.drop_first()[i] == q;
            assert(s[i + 1] == q);
        }
    }
}

/// Elementwise reading of a scored-move list's deep view.
proof fn lemma_pairs_deep_view(v: Vec<(i64, crate::board::Move)>)
    ensures
        v.deep_view().len() == v@.len(),
        forall|i: int|
            0 <= i < v@.len() ==> #[trigger] v.deep_view()[i] == (v@[i].0, v@[i].1@),
{
    assert forall|i: int| 0 <= i < v@.len() implies #[trigger] v.deep_view()[i] == (
        v@[i].0,
        v@[i].1@,
    ) by {
        assert(v.deep_view()[i] == v@[i].deep_view());
        crate::move_sort::lemma_move_deep_view(v@[i].1);
    };
}

/// Sort scored moves, best score first.  The scored moves afterwards are
/// exactly the scored moves before.
fn sort_pairs(pairs: Vec<(i64, crate::board::Move)>) -> (r: Vec<(i64, crate::board::Move)>)
    ensures
        r.deep_view() == sort_by_score(pairs.deep_view()),
{
    let n = pairs.len();
    let mut sorted: Vec<(i64, crate::board::Move)> = Vec::new();
    let mut i: usize = n;
    proof {
        lemma_pairs_deep_view(pairs);
        assert(pairs.deep_view().skip(n as int) =~= Seq::<(i64, Seq<(i8, i8)>)>::empty());
    }
    while i > 0
        invariant
            0 <= i <= n,
            n == pairs@.len(),
            pairs.deep_view().len() == pairs@.len(),
            forall|j: int|
                0 <= j < pairs@.len() ==> #[trigger] pairs.deep_view()[j] == (
                    pairs@[j].0,
                    pairs@[j].1@,
                ),
            sorted.deep_view() == sort_by_score(pairs.deep_view().skip(i as int)),
        decreases i,
    {
        i -= 1;
        let ghost before = sorted.deep_view();
        let score = pairs[i].0;
        let mv = clone_move(&pairs[i].1);
        let mut k: usize = 0;
        proof {
            lemma_pairs_deep_view(sorted);
        }
        while k < sorted.len() && score < sorted[k].0
            invariant
                0 <= k <= sorted@.len(),
                sorted.deep_view() == before,
                before.len() == sorted@.len(),
                forall|j: int|
                    0 <= j < sorted@.len() ==> #[trigger] before[j] == (
                        sorted@[j].0,
                        sorted@[j].1@,
                    ),
                forall|j: int| 0 <= j < k ==> score < (#[trigger] before[j]).0,
            decreases sorted@.len() - k,
        {
            k += 1;
        }
        sorted.insert(k, (score, mv));
        proof {
            lemma_insert_at_score_point((score, pairs@[i as int].1@), before, k as int);
            lemma_pairs_deep_view(sorted);
            assert(sorted.deep_view() =~= before.insert(k as int, (score, pairs@[i as int].1@)));
            let s = pairs.deep_view();
            assert(s[i as int] == (score, pairs@[i as int].1@));
            assert(s.skip(i as int).drop_first() =~= s.skip(i + 1));
            assert(s.skip(i as int)[0] == s[i as int]);
        }
    }
    proof {
        assert(pairs.deep_view().skip(0) =~= pairs.deep_view());
    }
    sorted
}

proof fn lemma_insert_at_score_point(
    p: (i64, Seq<(i8, i8)>),
    s: Seq<(i64, Seq<(i8, i8)>)>,
    k: int,
)
    requires
        0 <= k <= s.len(),
        forall|j: int| 0 <= j < k ==> p.0 < (#[trigger] s[j]).0,
        k < s.len() ==> p.0 >= s[k].0,
    ensures
        insert_by_score(p, s) == s.insert(k, p),
    decreases s.len(),
{
    if s.len() == 0 {
        assert(insert_by_score(p, s) =~= s.insert(0, p));
    } else if p.0 >= s[0].0 {
        assert(k == 0);
        assert(insert_by_score(p, s) =~= s.insert(0, p));
    } else {
        assert(k > 0);
        assert(forall|j: int| 0 <= j < k - 1 ==> p.0 < (#[trigger] s.drop_first()[j]).0);
        assert(k - 1 < s.drop_first().len() ==> p.0 >= s.drop_first()[k - 1].0);
        lemma_insert_at_score_point(p, s.drop_first(), k - 1);
        assert(insert_by_score(p, s) =~= s.insert(k, p)) by {
            assert(insert_by_score(p, s) == seq![s[0]] + s.drop_first().insert(k - 1, p));
            assert(seq![s[0]] + s.drop_first().insert(k - 1, p) =~= s.insert(k, p));
        };
    }
}

/// Search every child at a reduced depth with a full window, and sort
/// the moves by that shallow score, best first.  The moves handed back
/// are exactly the moves handed in; only their order changes.  `None`
/// when the search was cancelled.
fn order_moves<E: Evaluator>(
    board: &Board,
    ms: &Vec<crate::board::Move>,
    heuristic: &E,
    cache: &mut SearchCache,
    bmf_min_depth: i8,
    bmf_skip: i8,
    depth: i8,
    cancel: &CancelFlag,
) -> (r: Option<Vec<crate::board::Move>>)
    requires
        board@.wf(),
        cache_ok(heuristic, old(cache)),
        1 <= bmf_skip <= bmf_min_depth <= depth,
        ms.deep_view() == spec_possible_moves(board@),
    ensures
        cache_ok(heuristic, final(cache)),
        r matches Some(o) ==> ({
            &&& o.deep_view().len() == ms.deep_view().len()
            &&& forall|m: Seq<(i8, i8)>|
                o.deep_view().contains(m) == ms.deep_view().contains(m)
        }),
    decreases depth, 0int,
{
    let n = ms.len();
    let mut pairs: Vec<(i64, crate::board::Move)> = Vec::new();
    let mut i: usize = 0;
    let sgn_pos = bmf_skip % 2 == 0;
    proof {
        lemma_moves_deep_view(*ms);
        lemma_pairs_deep_view(pairs);
    }
    while i < n
        invariant
            0 <= i <= n,
            n == ms@.len(),
            board@.wf(),
            cache_ok(heuristic, cache),
            ms.deep_view().len() == ms@.len(),
            forall|j: int| 0 <= j < ms@.len() ==> #[trigger] ms.deep_view()[j] == ms@[j]@,
            1 <= bmf_skip <= bmf_min_depth <= depth,
            ms.deep_view() == spec_possible_moves(board@),
            pairs@.len() == i,
            pairs.deep_view().len() == i,
            forall|j: int|
                0 <= j < i ==> (#[trigger] pairs.deep_view()[j]).1 == ms.deep_view()[j],
        decreases n - i,
    {
        let m = &ms[i];
        let mut child = board.clone();
        proof {
            assert(ms.deep_view()[i as int] == m@);
            assert(spec_possible_moves(board@).contains(m@)) by {
                assert(spec_possible_moves(board@)[i as int] == m@);
            };
        }
        child.play(m);
        let sub_opt = alpha_beta_score(
            &child,
            NEG_INFINITY,
            POS_INFINITY,
            heuristic,
            cache,
            bmf_min_depth,
            bmf_skip,
            depth - bmf_skip,
            cancel,
        );
        let sub = match sub_opt {
            Some(s) => s,
            None => {
                return None;
            },
        };
        let val: i64 = if sgn_pos {
            sub
        } else {
            -sub
        };
        let ghost pdv = pairs.deep_view();
        pairs.push((val, clone_move(m)));
        proof {
            lemma_pairs_deep_view(pairs);
            assert(pairs.deep_view() =~= pdv.push((val, m@)));
        }
        i += 1;
    }
    let ghost pd = pairs.deep_view();
    let sorted = sort_pairs(pairs);
    let ghost sd = sorted.deep_view();
    let mut out: Vec<crate::board::Move> = Vec::new();
    let nk = sorted.len();
    let mut k: usize = 0;
    proof {
        lemma_sort_by_score_facts(pd, (0, Seq::empty()));
        lemma_pairs_deep_view(sorted);
        lemma_moves_deep_view(out);
    }
    while k < nk
        invariant
            0 <= k <= nk,
            nk == sorted@.len(),
            sd == sorted.deep_view(),
            sd.len() == sorted@.len(),
            forall|j: int|
                0 <= j < sorted@.len() ==> #[trigger] sd[j] == (sorted@[j].0, sorted@[j].1@),
            out@.len() == k,
            out.deep_view().len() == k,
            forall|j: int| 0 <= j < k ==> #[trigger] out.deep_view()[j] == sd[j].1,
        decreases nk - k,
    {
        let ghost odv = out.deep_view();
        out.push(clone_move(&sorted[k].1));
        proof {
            lemma_moves_deep_view(out);
            assert(out.deep_view() =~= odv.push(sd[k as int].1));
        }
        k += 1;
    }
    proof {
        // The sort keeps exactly the scored moves, and the scored moves
        // carry exactly the input moves, in input order before sorting.
        assert(sd.len() == pd.len()) by {
            lemma_sort_by_score_facts(pd, (0, Seq::empty()));
        };
        assert(out.deep_view().len() == ms.deep_view().len());
        assert forall|m: Seq<(i8, i8)>|
            out.deep_view().contains(m) == ms.deep_view().contains(m) by {
            if out.deep_view().contains(m) {
                let j = choose|j: int|
                    0 <= j < out.deep_view().len() && out.deep_view()[j] == m;
                assert(sd[j].1 == m);
                assert(sd.contains(sd[j]));
                lemma_sort_by_score_facts(pd, sd[j]);
                assert(pd.contains(sd[j]));
                let q = choose|q: int| 0 <= q < pd.len() && pd[q] == sd[j];
                assert(pd[q].1 == ms.deep_view()[q]);
                assert(ms.deep_view().contains(m)) by {
                    assert(ms.deep_view()[q] == m);
                };
            }
            if ms.deep_view().contains(m) {
                let q = choose|q: int| 0 <= q < ms.deep_view().len() && ms.deep_view()[q] == m;
                assert(pd[q].1 == m);
                assert(pd.contains(pd[q]));
                lemma_sort_by_score_facts(pd, pd[q]);
                assert(sd.contains(pd[q]));
                let j = choose|j: int| 0 <= j < sd.len() && sd[j] == pd[q];
                assert(out.deep_view()[j] == m);
                assert(out.deep_view().contains(m)) by {
                    assert(out.deep_view()[j] == m);
                };
            }
        };
    }
    Some(out)
}

// ---------------------------------------------------------------------
// The search itself.
// ---------------------------------------------------------------------

/// Fail-soft alpha-beta.  `None` means the search was cancelled; the
/// cache is never polluted by a cancelled subtree.  A returned score `s`
/// relates to the exhaustive full-width value `v` of the position as a
/// proven window: inside the window it is exact (`alpha < s < beta`
/// implies `s == v`), at or below `alpha` it certifies `v <= alpha`, at
/// or above `beta` it certifies `v >= beta`.  Pruning and caching never
/// change the value, only the cost.
#[verifier::rlimit(100)]
pub fn alpha_beta_score<E: Evaluator>(
    board: &Board,
    alpha: i64,
    beta: i64,
    heuristic_score: &E,
    cache: &mut SearchCache,
    best_move_first_min_depth: i8,
    best_move_first_skip_size: i8,
    depth: i8,
    cancel_search: &CancelFlag,
) -> (r: Option<i64>)
    requires
        board@.wf(),
        cache_ok(heuristic_score, old(cache)),
        0 <= depth,
        1 <= best_move_first_skip_size <= best_move_first_min_depth,
        -(POS_INFINITY + 1) <= alpha < beta <= POS_INFINITY + 1,
    ensures
        cache_ok(heuristic_score, final(cache)),
        r matches Some(s) ==> ({
            let val = negamax(heuristic_score, board@, depth as nat);
            &&& alpha < s < beta ==> s == val
            &&& s <= alpha ==> val <= alpha
            &&& s >= beta ==> val >= beta
            &&& -(POS_INFINITY + 1) <= s <= POS_INFINITY + 1
        }),
    decreases depth, 1int,
{
    let e = heuristic_score;
    if cancel_search.is_set() {
        return None;
    }
    let ghost val = negamax(e, board@, depth as nat);
    proof {
        lemma_negamax_bounded(e, board@, depth as nat);
    }
    // ********** Import cache results **********
    let mut alpha_w = alpha;
    let mut beta_w = beta;
    match cache_lookup(e, cache, board, depth) {
        Some((mn, mx)) => {
            if mx <= alpha {
                return Some(alpha);
            }
            if mn >= beta {
                return Some(beta);
            }
            if mn == mx {
                return Some(mn);
            }
            alpha_w = if alpha > mn {
                alpha
            } else {
                mn
            };
            beta_w = if beta < mx {
                beta
            } else {
                mx
            };
        },
        None => {},
    }
    proof {
        assert(alpha <= alpha_w < beta_w <= beta);
        assert(alpha_w > alpha ==> alpha_w <= val);
        assert(beta_w < beta ==> val <= beta_w);
    }
    // ********** Main: get score value **********
    let score: i64;
    if depth == 0 || board.is_end_game() {
        score = e.score(board);
    } else {
        let ms = board.possible_moves();
        proof {
            lemma_not_end_moves_nonempty(board@);
            lemma_moves_deep_view(ms);
        }
        // ********** Choose best move first **********
        let ordered: Vec<crate::board::Move>;
        if depth >= best_move_first_min_depth {
            match order_moves(
                board,
                &ms,
                e,
                cache,
                best_move_first_min_depth,
                best_move_first_skip_size,
                depth,
                cancel_search,
            ) {
                Some(o) => {
                    ordered = o;
                },
                None => {
                    return None;
                },
            }
        } else {
            ordered = ms;
        }
        let ghost ov = ordered.deep_view();
        let ghost cms = spec_possible_moves(board@);
        proof {
            assert(ov.len() == cms.len() && ov.len() > 0);
            assert(forall|m: Seq<(i8, i8)>| ov.contains(m) == cms.contains(m));
            lemma_children_best_same_members(e, board@, cms, ov, depth as nat);
            assert(val == children_best(e, board@, ov, depth as nat));
            lemma_children_best_char(e, board@, ov, depth as nat);
            lemma_moves_deep_view(ordered);
        }
        let mut a = alpha_w;
        let mut cut = false;
        let nk = ordered.len();
        let mut k: usize = 0;
        while k < nk && !cut
            invariant
                0 <= k <= nk,
                nk == ordered@.len(),
                board@.wf(),
                e == heuristic_score,
                cache_ok(e, cache),
                1 <= best_move_first_skip_size <= best_move_first_min_depth,
                1 <= depth,
                ov == ordered.deep_view(),
                ov.len() == ordered@.len(),
                forall|j: int| 0 <= j < ordered@.len() ==> #[trigger] ov[j] == ordered@[j]@,
                forall|j: int| 0 <= j < ov.len() ==> cms.contains(#[trigger] ov[j]),
                val == children_best(e, board@, ov, depth as nat),
                cms == spec_possible_moves(board@),
                forall|m: Seq<(i8, i8)>|
                    #[trigger] ov.contains(m) ==> move_value(e, board@, m, (depth - 1) as nat)
                        <= val,
                exists|m: Seq<(i8, i8)>|
                    #[trigger] ov.contains(m) && val == move_value(
                        e,
                        board@,
                        m,
                        (depth - 1) as nat,
                    ),
                -(POS_INFINITY + 1) <= alpha <= alpha_w <= a < beta_w <= beta <= POS_INFINITY
                    + 1,
                alpha_w > alpha ==> alpha_w <= val,
                beta_w < beta ==> val <= beta_w,
                !cut ==> forall|j: int|
                    0 <= j < k ==> move_value(e, board@, #[trigger] ov[j], (depth - 1) as nat)
                        <= a,
                !cut ==> (a == alpha_w || exists|j: int|
                    0 <= j < k && a == move_value(e, board@, #[trigger] ov[j], (depth - 1) as nat)),
                cut ==> val >= beta_w,
            decreases nk - k,
        {
            let m = &ordered[k];
            let mut child = board.clone();
            proof {
                assert(ov[k as int] == m@);
                assert(cms.contains(m@));
            }
            child.play(m);
            let ghost cval = negamax(e, child@, (depth - 1) as nat);
            let ghost mval = move_value(e, board@, m@, (depth - 1) as nat);
            proof {
                assert(child@ == spec_play(board@, m@));
                assert(mval == -cval);
                lemma_negamax_bounded(e, child@, (depth - 1) as nat);
            }
            let sub_opt = alpha_beta_score(
                &child,
                -beta_w,
                -a,
                e,
                cache,
                best_move_first_min_depth,
                best_move_first_skip_size,
                depth - 1,
                cancel_search,
            );
            let sub = match sub_opt {
                Some(s) => s,
                None => {
                    return None;
                },
            };
            // ********** Alpha-beta pruning **********
            let res = -sub;
            proof {
                if sub <= -beta_w {
                    assert(cval <= -beta_w);
                    assert(mval >= beta_w);
                } else if sub >= -a {
                    assert(cval >= -a);
                    assert(mval <= a);
                } else {
                    assert(sub as int == cval);
                    assert(res as int == mval);
                }
            }
            if res >= beta_w {
                proof {
                    assert(mval >= beta_w);
                    assert(val >= mval) by {
                        assert(ov.contains(m@));
                    };
                }
                cut = true;
            } else {
                if res > a {
                    proof {
                        assert(res as int == mval);
                    }
                    a = res;
                } else {
                    proof {
                        assert(mval <= a);
                    }
                }
                proof {
                    assert(forall|j: int|
                        0 <= j < k + 1 ==> move_value(
                            e,
                            board@,
                            #[trigger] ov[j],
                            (depth - 1) as nat,
                        ) <= a);
                }
            }
            k += 1;
        }
        if cut {
            score = beta_w;
        } else {
            score = a;
            proof {
                // Every move's value is at most `a`, and `a` is the best
                // value or the window floor.
                let mb = choose|m: Seq<(i8, i8)>|
                    #[trigger] ov.contains(m) && val == move_value(
                        e,
                        board@,
                        m,
                        (depth - 1) as nat,
                    );
                assert(val <= a) by {
                    let j = choose|j: int| 0 <= j < ov.len() && ov[j] == mb;
                    assert(move_value(e, board@, ov[j], (depth - 1) as nat) <= a);
                };
                assert(a == alpha_w || a <= val);
            }
        }
    }
    proof {
        // Classify the loop's result against the original window.
        if score <= alpha {
            assert(val <= alpha);
        }
        if score >= beta {
            assert(val >= beta);
        }
        if alpha < score < beta {
            assert(score as int == val);
        }
    }
    if cancel_search.is_set() {
        return None;
    }
    // ********** Store results **********
    let stored = cache_store(e, cache, board, depth, score, alpha, beta);
    Some(stored)
}

/// Root search: like `alpha_beta_score` with a full window, but keeping
/// every move tied for the best score, for randomised selection at play
/// time.  `None` when cancelled.  On a completed search the score is
/// exactly the exhaustive full-width value, and the returned moves are
/// exactly the legal moves achieving it.
#[verifier::rlimit(100)]
pub fn alpha_beta_list<E: Evaluator>(
    board: &Board,
    heuristic_score: &E,
    best_move_first_min_depth: i8,
    best_move_first_skip_size: i8,
    depth: i8,
    cancel_search: &CancelFlag,
) -> (r: Option<(i64, Vec<crate::board::Move>)>)
    requires
        board@.wf(),
        0 <= depth,
        1 <= best_move_first_skip_size <= best_move_first_min_depth,
    ensures
        r matches Some(p) ==> ({
            let val = negamax(heuristic_score, board@, depth as nat);
            if depth == 0 || spec_is_end(board@) {
                p.0 as int == heuristic_score.spec_score(board@) && p.1@.len() == 0
            } else {
                &&& p.0 as int == val
                &&& forall|m: Seq<(i8, i8)>|
                    p.1.deep_view().contains(m) == (spec_possible_moves(board@).contains(m)
                        && move_value(heuristic_score, board@, m, (depth - 1) as nat) == val)
            }
        }),
{
    let e = heuristic_score;
    if cancel_search.is_set() {
        return None;
    }
    let mut cache = SearchCache::new();
    proof {
        assert(cache_ok(e, &cache));
    }
    if depth == 0 || board.is_end_game() {
        let empty: Vec<crate::board::Move> = Vec::new();
        return Some((e.score(board), empty));
    }
    let ghost val = negamax(e, board@, depth as nat);
    let ms = board.possible_moves();
    proof {
        lemma_not_end_moves_nonempty(board@);
        lemma_moves_deep_view(ms);
        lemma_negamax_bounded(e, board@, depth as nat);
    }
    // ********** Choose best move first **********
    let ordered: Vec<crate::board::Move>;
    if depth >= best_move_first_min_depth {
        match order_moves(
            board,
            &ms,
            e,
            &mut cache,
            best_move_first_min_depth,
            best_move_first_skip_size,
            depth,
            cancel_search,
        ) {
            Some(o) => {
                ordered = o;
            },
            None => {
                return None;
            },
        }
    } else {
        ordered = ms;
    }
    let ghost ov = ordered.deep_view();
    let ghost cms = spec_possible_moves(board@);
    proof {
        assert(ov.len() == cms.len() && ov.len() > 0);
        assert(forall|m: Seq<(i8, i8)>| ov.contains(m) == cms.contains(m));
        lemma_children_best_same_members(e, board@, cms, ov, depth as nat);
        assert(val == children_best(e, board@, ov, depth as nat));
        lemma_children_best_char(e, board@, ov, depth as nat);
        lemma_moves_deep_view(ordered);
    }
    let mut best_score: i64 = NEG_INFINITY;
    let mut best_moves: Vec<crate::board::Move> = Vec::new();
    let nk = ordered.len();
    let mut k: usize = 0;
    proof {
        lemma_moves_deep_view(best_moves);
    }
    while k < nk
        invariant
            0 <= k <= nk,
            nk == ordered@.len(),
            board@.wf(),
            e == heuristic_score,
            cache_ok(e, &cache),
            1 <= best_move_first_skip_size <= best_move_first_min_depth,
            1 <= depth,
            ov == ordered.deep_view(),
            ov.len() == ordered@.len(),
            forall|j: int| 0 <= j < ordered@.len() ==> #[trigger] ov[j] == ordered@[j]@,
            forall|j: int| 0 <= j < ov.len() ==> cms.contains(#[trigger] ov[j]),
            val == children_best(e, board@, ov, depth as nat),
            cms == spec_possible_moves(board@),
            val == negamax(e, board@, depth as nat),
            -(POS_INFINITY - 1) <= val <= POS_INFINITY - 1,
            forall|m: Seq<(i8, i8)>|
                #[trigger] ov.contains(m) ==> move_value(e, board@, m, (depth - 1) as nat) <= val,
            k == 0 ==> best_score == NEG_INFINITY && best_moves@.len() == 0,
            k > 0 ==> NEG_INFINITY < best_score <= POS_INFINITY - 1,
            k > 0 ==> exists|j: int|
                0 <= j < k && best_score as int == move_value(
                    e,
                    board@,
                    #[trigger] ov[j],
                    (depth - 1) as nat,
                ),
            forall|j: int|
                0 <= j < k ==> move_value(e, board@, #[trigger] ov[j], (depth - 1) as nat)
                    <= best_score,
            forall|m: Seq<(i8, i8)>|
                best_moves.deep_view().contains(m) == exists|j: int|
                    0 <= j < k && #[trigger] ov[j] == m && move_value(
                        e,
                        board@,
                        m,
                        (depth - 1) as nat,
                    ) == best_score as int,
        decreases nk - k,
    {
        let m = &ordered[k];
        let mut child = board.clone();
        proof {
            assert(ov[k as int] == m@);
            assert(cms.contains(m@));
        }
        child.play(m);
        let ghost cval = negamax(e, child@, (depth - 1) as nat);
        let ghost mval = move_value(e, board@, m@, (depth - 1) as nat);
        proof {
            assert(child@ == spec_play(board@, m@));
            assert(mval == -cval);
            lemma_negamax_bounded(e, child@, (depth - 1) as nat);
        }
        let alpha: i64 = best_score - 1;
        let beta: i64 = POS_INFINITY;
        let sub_opt = alpha_beta_score(
            &child,
            -beta,
            -alpha,
            e,
            &mut cache,
            best_move_first_min_depth,
            best_move_first_skip_size,
            depth - 1,
            cancel_search,
        );
        let sub = match sub_opt {
            Some(s) => s,
            None => {
                return None;
            },
        };
        let res = -sub;
        let ghost bm0 = best_moves.deep_view();
        proof {
            if sub <= -beta {
                assert(cval <= -POS_INFINITY);
                assert(false);
            }
            if sub >= -alpha {
                assert(cval >= -alpha);
                assert(mval <= alpha);
            }
            if -beta < sub < -alpha {
                assert(sub as int == cval);
                assert(res as int == mval);
            }
        }
        if res > best_score {
            proof {
                assert(res as int == mval);
            }
            best_score = res;
            let mut bm: Vec<crate::board::Move> = Vec::new();
            bm.push(clone_move(m));
            best_moves = bm;
            proof {
                lemma_moves_deep_view(best_moves);
                assert forall|mm: Seq<(i8, i8)>|
                    best_moves.deep_view().contains(mm) == (exists|j: int|
                        0 <= j < k + 1 && #[trigger] ov[j] == mm && move_value(
                            e,
                            board@,
                            mm,
                            (depth - 1) as nat,
                        ) == best_score as int) by {
                    if best_moves.deep_view().contains(mm) {
                        assert(best_moves.deep_view()[0] == m@);
                        assert(mm == m@);
                        assert(ov[k as int] == mm && move_value(
                            e,
                            board@,
                            mm,
                            (depth - 1) as nat,
                        ) == best_score as int);
                    }
                    if exists|j: int|
                        0 <= j < k + 1 && #[trigger] ov[j] == mm && move_value(
                            e,
                            board@,
                            mm,
                            (depth - 1) as nat,
                        ) == best_score as int {
                        let j = choose|j: int|
                            0 <= j < k + 1 && #[trigger] ov[j] == mm && move_value(
                                e,
                                board@,
                                mm,
                                (depth - 1) as nat,
                            ) == best_score as int;
                        if j < k {
                            assert(move_value(e, board@, ov[j], (depth - 1) as nat)
                                <= best_score - 1);
                            assert(false);
                        }
                        assert(mm == m@);
                        assert(best_moves.deep_view()[0] == mm);
                    }
                };
            }
        } else if res == best_score {
            proof {
                assert(res as int == mval || mval <= alpha);
                assert(k > 0);
                assert(res as int == mval);
            }
            best_moves.push(clone_move(m));
            proof {
                lemma_moves_deep_view(best_moves);
                assert(best_moves.deep_view() =~= bm0.push(m@));
                assert forall|mm: Seq<(i8, i8)>|
                    best_moves.deep_view().contains(mm) == (exists|j: int|
                        0 <= j < k + 1 && #[trigger] ov[j] == mm && move_value(
                            e,
                            board@,
                            mm,
                            (depth - 1) as nat,
                        ) == best_score as int) by {
                    if best_moves.deep_view().contains(mm) {
                        let q = choose|q: int|
                            0 <= q < best_moves.deep_view().len() && best_moves.deep_view()[q]
                                == mm;
                        if q < bm0.len() {
                            assert(bm0.contains(mm)) by {
                                assert(bm0[q] == mm);
                            };
                        } else {
                            assert(mm == m@);
                            assert(ov[k as int] == mm);
                        }
                    }
                    if exists|j: int|
                        0 <= j < k + 1 && #[trigger] ov[j] == mm && move_value(
                            e,
                            board@,
                            mm,
                            (depth - 1) as nat,
                        ) == best_score as int {
                        let j = choose|j: int|
                            0 <= j < k + 1 && #[trigger] ov[j] == mm && move_value(
                                e,
                                board@,
                                mm,
                                (depth - 1) as nat,
                            ) == best_score as int;
                        if j < k {
                            assert(bm0.contains(mm));
                            let q = choose|q: int| 0 <= q < bm0.len() && bm0[q] == mm;
                            assert(best_moves.deep_view()[q] == mm);
                        } else {
                            assert(mm == m@);
                            assert(best_moves.deep_view()[bm0.len() as int] == mm);
                        }
                    }
                };
            }
        } else {
            proof {
                assert(mval < best_score as int) by {
                    if !(mval <= alpha) {
                        assert(res as int == mval);
                    }
                };
                assert forall|mm: Seq<(i8, i8)>|
                    best_moves.deep_view().contains(mm) == (exists|j: int|
                        0 <= j < k + 1 && #[trigger] ov[j] == mm && move_value(
                            e,
                            board@,
                            mm,
                            (depth - 1) as nat,
                        ) == best_score as int) by {
                    if exists|j: int|
                        0 <= j < k + 1 && #[trigger] ov[j] == mm && move_value(
                            e,
                            board@,
                            mm,
                            (depth - 1) as nat,
                        ) == best_score as int {
                        let j = choose|j: int|
                            0 <= j < k + 1 && #[trigger] ov[j] == mm && move_value(
                                e,
                                board@,
                                mm,
                                (depth - 1) as nat,
                            ) == best_score as int;
                        assert(j < k);
                    }
                };
            }
        }
        k += 1;
    }
    if cancel_search.is_set() {
        return None;
    }
    proof {
        // The final best score is the exhaustive value.
        let mb = choose|m: Seq<(i8, i8)>|
            #[trigger] ov.contains(m) && val == move_value(e, board@, m, (depth - 1) as nat);
        assert(val <= best_score as int) by {
            let j = choose|j: int| 0 <= j < ov.len() && ov[j] == mb;
            assert(move_value(e, board@, ov[j], (depth - 1) as nat) <= best_score);
        };
        assert(best_score as int <= val) by {
            let j = choose|j: int|
                0 <= j < nk && best_score as int == move_value(
                    e,
                    board@,
                    ov[j],
                    (depth - 1) as nat,
                );
            assert(ov.contains(ov[j]));
        };
        // Membership over the ordered list is membership over the legal
        // moves.
        assert forall|m: Seq<(i8, i8)>|
            best_moves.deep_view().contains(m) == (cms.contains(m) && move_value(
                e,
                board@,
                m,
                (depth - 1) as nat,
            ) == val) by {
            if best_moves.deep_view().contains(m) {
                let j = choose|j: int|
                    0 <= j < nk && #[trigger] ov[j] == m && move_value(
                        e,
                        board@,
                        m,
                        (depth - 1) as nat,
                    ) == best_score as int;
                assert(cms.contains(ov[j]));
            }
            if cms.contains(m) && move_value(e, board@, m, (depth - 1) as nat) == val {
                assert(ov.contains(m));
                let j = choose|j: int| 0 <= j < ov.len() && ov[j] == m;
                assert(0 <= j < nk && ov[j] == m && move_value(e, board@, m, (depth - 1) as nat)
                    == best_score as int);
            }
        };
    }
    Some((best_score, best_moves))
}

// ---------------------------------------------------------------------
// What the contracts add up to.
// ---------------------------------------------------------------------

/// A full-window search is exact: any score the search may return for
/// the window `(NEG_INFINITY, POS_INFINITY)` equals the exhaustive
/// full-width value, however the cache was warmed.  Pruning and caching
/// never change the answer.
pub proof fn lemma_full_window_exact<E: Evaluator>(e: &E, v: BoardView, d: nat, s: int)
    requires
        v.wf_boards(),
        NEG_INFINITY < s < POS_INFINITY ==> s == negamax(e, v, d),
        s <= NEG_INFINITY as int ==> negamax(e, v, d) <= NEG_INFINITY as int,
        s >= POS_INFINITY as int ==> negamax(e, v, d) >= POS_INFINITY as int,
    ensures
        s == negamax(e, v, d),
{
    lemma_negamax_bounded(e, v, d);
}

/// Cache idempotence: two runs of the same `(position, depth, alpha,
/// beta)` search, each over any sound cache (carried over or empty),
/// agree whenever either answer is inside the window; in particular two
/// full-window runs return the same score.
pub proof fn lemma_search_agreement<E: Evaluator>(
    e: &E,
    v: BoardView,
    d: nat,
    alpha: int,
    beta: int,
    s1: int,
    s2: int,
)
    requires
        alpha < beta,
        alpha < s1 < beta ==> s1 == negamax(e, v, d),
        s1 <= alpha ==> negamax(e, v, d) <= alpha,
        s1 >= beta ==> negamax(e, v, d) >= beta,
        alpha < s2 < beta ==> s2 == negamax(e, v, d),
        s2 <= alpha ==> negamax(e, v, d) <= alpha,
        s2 >= beta ==> negamax(e, v, d) >= beta,
        alpha < s1 < beta || alpha < s2 < beta,
    ensures
        s1 == s2,
{
}

// ---------------------------------------------------------------------
// Iterative deepening and move selection.
// ---------------------------------------------------------------------

/// Relies on rand::random_range over `0..n`: a uniform draw strictly
/// below the bound.  It panics on an empty range, which the
/// precondition excludes.
#[verifier::external_body]
fn random_below(n: usize) -> (r: usize)
    requires
        n >= 1,
    ensures
        r < n,
{
    rand::random_range(0..n)
}

/// One of the given moves, chosen at random; nothing when there is none.
pub fn pick_random_move(moves: &Vec<crate::board::Move>) -> (r: Option<crate::board::Move>)
    ensures
        (r is Some) == (moves@.len() > 0),
        r matches Some(m) ==> exists|i: int| 0 <= i < moves@.len() && m@ == #[trigger] moves@[i]@,
{
    if moves.len() == 0 {
        None
    } else {
        let i = random_below(moves.len());
        let m = clone_move(&moves[i]);
        proof {
            assert(m@ == moves@[i as int]@);
        }
        Some(m)
    }
}

/// Are these exactly the moves achieving the exhaustive value at depth
/// `d`?
pub open spec fn is_best_move_set<E: Evaluator>(
    e: &E,
    v: BoardView,
    d: nat,
    ms: Seq<Seq<(i8, i8)>>,
) -> bool {
    forall|m: Seq<(i8, i8)>|
        ms.contains(m) == (spec_possible_moves(v).contains(m) && move_value(
            e,
            v,
            m,
            (d - 1) as nat,
        ) == negamax(e, v, d))
}

/// Iterative deepening: search ever deeper, two plies at a time, until
/// the flag fires or the depth cap is reached; keep the last completed
/// answer.  The result is the depth reached and either nothing (nothing
/// completed, or the game is over at every searched depth) or the best
/// moves of some completed even depth.
pub fn iterative_deepening<E: Evaluator>(
    board: &Board,
    heuristic_score: &E,
    best_move_first_min_depth: i8,
    best_move_first_skip_size: i8,
    cancel_search: &CancelFlag,
) -> (r: (i8, Vec<crate::board::Move>))
    requires
        board@.wf(),
        1 <= best_move_first_skip_size <= best_move_first_min_depth,
    ensures
        r.1.deep_view().len() == 0 || exists|dd: nat|
            dd >= 1 && is_best_move_set(heuristic_score, board@, dd, r.1.deep_view()),
{
    let e = heuristic_score;
    let mut best_moves: Vec<crate::board::Move> = Vec::new();
    let mut depth: i8 = 2;
    proof {
        lemma_moves_deep_view(best_moves);
    }
    while depth < 100
        invariant
            2 <= depth <= 100,
            depth % 2 == 0,
            board@.wf(),
            e == heuristic_score,
            1 <= best_move_first_skip_size <= best_move_first_min_depth,
            best_moves.deep_view().len() == 0 || exists|dd: nat|
                dd >= 1 && is_best_move_set(e, board@, dd, best_moves.deep_view()),
        decreases 100 - depth,
    {
        if cancel_search.is_set() {
            break ;
        }
        match alpha_beta_list(
            board,
            e,
            best_move_first_min_depth,
            best_move_first_skip_size,
            depth,
            cancel_search,
        ) {
            Some(p) => {
                let (_s, ms) = p;
                proof {
                    lemma_moves_deep_view(ms);
                    if !(depth == 0 || spec_is_end(board@)) {
                        assert(is_best_move_set(e, board@, depth as nat, ms.deep_view()));
                    } else {
                        assert(ms.deep_view().len() == 0) by {
                            assert(ms@.len() == 0);
                        };
                    }
                }
                best_moves = ms;
                depth += 2;
            },
            None => {
                break ;
            },
        }
    }
    (depth, best_moves)
}

/// The move the engine plays: deepen until the timer fires, then pick
/// one of the tied best moves at random.  Empty when the game is over or
/// nothing completed in time.  Any returned move is legal, and is a best
/// move of some completed search depth.
pub fn get_alpha_beta_move<E: Evaluator>(
    board: &Board,
    heuristic_score: &E,
    best_move_first_min_depth: i8,
    best_move_first_skip_size: i8,
    cancel_search: &CancelFlag,
) -> (r: crate::board::Move)
    requires
        board@.wf(),
        1 <= best_move_first_skip_size <= best_move_first_min_depth,
    ensures
        r@.len() == 0 || (spec_possible_moves(board@).contains(r@) && exists|dd: nat|
            dd >= 1 && move_value(heuristic_score, board@, r@, (dd - 1) as nat) == negamax(
                heuristic_score,
                board@,
                dd,
            )),
{
    let e = heuristic_score;
    if board.is_end_game() {
        return Vec::new();
    }
    let pair = iterative_deepening(
        board,
        e,
        best_move_first_min_depth,
        best_move_first_skip_size,
        cancel_search,
    );
    let best_moves = pair.1;
    proof {
        lemma_moves_deep_view(best_moves);
    }
    match pick_random_move(&best_moves) {
        Some(m) => {
            proof {
                let i = choose|i: int|
                    0 <= i < best_moves@.len() && m@ == #[trigger] best_moves@[i]@;
                assert(best_moves.deep_view().contains(m@)) by {
                    assert(best_moves.deep_view()[i] == m@);
                };
                let dd = choose|dd: nat|
                    dd >= 1 && is_best_move_set(e, board@, dd, best_moves.deep_view());
                assert(spec_possible_moves(board@).contains(m@) && move_value(
                    e,
                    board@,
                    m@,
                    (dd - 1) as nat,
                ) == negamax(e, board@, dd));
            }
            m
        },
        None => Vec::new(),
    }
}

} // verus!
