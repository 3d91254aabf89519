//! Hand scoring: exhaustive search for the optimal pairing of six cards.
//!
//! A *pairing* (matching) of a set of slots is a list of disjoint slot pairs
//! whose cards pair with each other. Its score is the sum of the pair values
//! plus the unpaired value of every slot that no pair covers. The score of a
//! hand is the minimum over all pairings.

use vstd::prelude::*;
use crate::card::{Card, Rank};

verus! {

/// Two cards pair if they share a rank, or if either is an ace (aces are wild).
pub open spec fn pairs_spec(a: Card, b: Card) -> bool {
    a.rank == b.rank || a.rank == Rank::Ace || b.rank == Rank::Ace
}

/// A pair containing an ace scores −2; a natural pair scores 0.
pub open spec fn pair_value_spec(a: Card, b: Card) -> int {
    if a.rank == Rank::Ace || b.rank == Rank::Ace {
        -2
    } else {
        0
    }
}

/// Two cards pair if they share a rank, or if either is an ace (aces are wild).
pub fn pairs_with(a: Card, b: Card) -> (r: bool)
    ensures
        r == pairs_spec(a, b),
{
    a.rank == b.rank || a.rank == Rank::Ace || b.rank == Rank::Ace
}

/// A pair containing an ace scores −2; a natural pair scores 0.
pub fn pair_value(a: Card, b: Card) -> (r: i32)
    ensures
        r == pair_value_spec(a, b),
{
    if a.rank == Rank::Ace || b.rank == Rank::Ace {
        -2
    } else {
        0
    }
}

/// The six slots of a hand, in order.
pub open spec fn all_slots() -> Seq<u8> {
    seq![0u8, 1u8, 2u8, 3u8, 4u8, 5u8]
}

/// Slot `x` is one of the two slots of pair `p`.
pub open spec fn touches(p: (u8, u8), x: u8) -> bool {
    p.0 == x || p.1 == x
}

/// Slot `x` is an endpoint of some pair of `m`.
pub open spec fn covers(m: Seq<(u8, u8)>, x: u8) -> bool {
    exists|k: int| 0 <= k < m.len() && #[trigger] touches(m[k], x)
}

/// `m` is a valid pairing of the slots in `rem`: every pair joins two
/// different slots of `rem` whose cards pair, and no slot is used twice.
pub open spec fn is_matching(cards: Seq<Card>, rem: Seq<u8>, m: Seq<(u8, u8)>) -> bool {
    &&& forall|k: int|
        0 <= k < m.len() ==> {
            &&& rem.contains(#[trigger] m[k].0)
            &&& rem.contains(m[k].1)
            &&& m[k].0 != m[k].1
            &&& pairs_spec(cards[m[k].0 as int], cards[m[k].1 as int])
        }
    &&& forall|k1: int, k2: int|
        0 <= k1 < m.len() && 0 <= k2 < m.len() && k1 != k2 ==> {
            &&& #[trigger] m[k1].0 != #[trigger] m[k2].0
            &&& m[k1].0 != m[k2].1
            &&& m[k1].1 != m[k2].0
            &&& m[k1].1 != m[k2].1
        }
}

/// Sum of the pair values of `m`.
pub open spec fn pair_sum(cards: Seq<Card>, m: Seq<(u8, u8)>) -> int
    decreases m.len(),
{
    if m.len() == 0 {
        0
    } else {
        pair_sum(cards, m.drop_last()) + pair_value_spec(
            cards[m.last().0 as int],
            cards[m.last().1 as int],
        )
    }
}

/// Sum of the unpaired values of the slots of `rem` that `m` leaves uncovered.
pub open spec fn unpaired_sum(cards: Seq<Card>, rem: Seq<u8>, m: Seq<(u8, u8)>) -> int
    decreases rem.len(),
{
    if rem.len() == 0 {
        0
    } else {
        (if covers(m, rem[0]) {
            0
        } else {
            cards[rem[0] as int].rank.value()
        }) + unpaired_sum(cards, rem.drop_first(), m)
    }
}

/// Score of the hand restricted to `rem` under the pairing `m`.
pub open spec fn matching_score(cards: Seq<Card>, rem: Seq<u8>, m: Seq<(u8, u8)>) -> int {
    pair_sum(cards, m) + unpaired_sum(cards, rem, m)
}

/// The search the engine performs: the first remaining slot is either left
/// unpaired or paired with a later compatible slot, whichever scores lowest;
/// on equal scores the earlier option is kept. Returns the score and the
/// pairs chosen.
pub open spec fn best(cards: Seq<Card>, rem: Seq<u8>) -> (int, Seq<(u8, u8)>)
    decreases rem.len(), rem.len(),
{
    if rem.len() == 0 {
        (0, Seq::empty())
    } else {
        let f = rem[0];
        let rest = rem.drop_first();
        let sub = best(cards, rest);
        best_upto(cards, f, rest, rest.len() as int, (cards[f as int].rank.value() + sub.0, sub.1))
    }
}

/// The best of `base` and the pairings of `f` with `rest[0..k]`.
pub open spec fn best_upto(
    cards: Seq<Card>,
    f: u8,
    rest: Seq<u8>,
    k: int,
    base: (int, Seq<(u8, u8)>),
) -> (int, Seq<(u8, u8)>)
    decreases rest.len() + 1, k,
{
    if k <= 0 || k > rest.len() {
        base
    } else {
        let prev = best_upto(cards, f, rest, k - 1, base);
        let j = rest[k - 1];
        if pairs_spec(cards[f as int], cards[j as int]) {
            let sub = best(cards, rest.remove(k - 1));
            let total = pair_value_spec(cards[f as int], cards[j as int]) + sub.0;
            if total < prev.0 {
                (total, sub.1.push((f, j)))
            } else {
                prev
            }
        } else {
            prev
        }
    }
}

/// Minimum score of a six-card hand.
pub open spec fn hand_score(cards: Seq<Card>) -> int {
    best(cards, all_slots()).0
}

/// The pairing the engine reports for a six-card hand.
pub open spec fn optimal_pairs(cards: Seq<Card>) -> Seq<(u8, u8)> {
    best(cards, all_slots()).1
}

// ---------------------------------------------------------------------------
// Bounds.

proof fn lemma_best_bounds(cards: Seq<Card>, rem: Seq<u8>)
    ensures
        -2 * rem.len() <= best(cards, rem).0 <= 10 * rem.len(),
    decreases rem.len(), rem.len(),
{
    if rem.len() > 0 {
        let f = rem[0];
        let rest = rem.drop_first();
        lemma_best_bounds(cards, rest);
        let sub = best(cards, rest);
        lemma_upto_bounds(
            cards,
            f,
            rest,
            rest.len() as int,
            (cards[f as int].rank.value() + sub.0, sub.1),
        );
    }
}

proof fn lemma_upto_bounds(
    cards: Seq<Card>,
    f: u8,
    rest: Seq<u8>,
    k: int,
    base: (int, Seq<(u8, u8)>),
)
    requires
        -2 * (rest.len() + 1) <= base.0 <= 10 * (rest.len() + 1),
    ensures
        -2 * (rest.len() + 1) <= best_upto(cards, f, rest, k, base).0 <= 10 * (rest.len() + 1),
    decreases rest.len() + 1, k,
{
    if !(k <= 0 || k > rest.len()) {
        lemma_upto_bounds(cards, f, rest, k - 1, base);
        let j = rest[k - 1];
        if pairs_spec(cards[f as int], cards[j as int]) {
            lemma_best_bounds(cards, rest.remove(k - 1));
        }
    }
}

// ---------------------------------------------------------------------------
// Sequence and coverage facts.

proof fn lemma_remove_contains(s: Seq<u8>, q: int, x: u8)
    requires
        0 <= q < s.len(),
    ensures
        s.contains(x) && x != s[q] ==> s.remove(q).contains(x),
        s.remove(q).contains(x) ==> s.contains(x),
        s.remove(q).contains(x) && s.no_duplicates() ==> x != s[q],
        s.no_duplicates() ==> s.remove(q).no_duplicates(),
{
    let r = s.remove(q);
    assert(r.len() == s.len() - 1);
    if s.contains(x) && x != s[q] {
        let i = choose|i: int| 0 <= i < s.len() && s[i] == x;
        if i < q {
            assert(r[i] == x);
        } else {
            assert(r[i - 1] == x);
        }
    }
    if r.contains(x) {
        let i = choose|i: int| 0 <= i < r.len() && r[i] == x;
        if i < q {
            assert(s[i] == x);
        } else {
            assert(s[i + 1] == x);
        }
    }
    if s.no_duplicates() {
        assert forall|i: int, j: int| 0 <= i < r.len() && 0 <= j < r.len() && i != j implies r[i]
            != r[j] by {
            let si = if i < q { i } else { i + 1 };
            let sj = if j < q { j } else { j + 1 };
            assert(r[i] == s[si] && r[j] == s[sj]);
        }
    }
}

#[verifier::spinoff_prover]
proof fn lemma_covers_push(m: Seq<(u8, u8)>, p: (u8, u8), x: u8)
    ensures
        covers(m.push(p), x) == (covers(m, x) || p.0 == x || p.1 == x),
{
    let n = m.push(p);
    if covers(m, x) {
        let k = choose|k: int| 0 <= k < m.len() && touches(m[k], x);
        assert(n[k] == m[k]);
        assert(touches(n[k], x));
    }
    if p.0 == x || p.1 == x {
        assert(n[m.len() as int] == p);
        assert(touches(n[m.len() as int], x));
    }
    if covers(n, x) {
        let k = choose|k: int| 0 <= k < n.len() && touches(n[k], x);
        if k < m.len() {
            assert(n[k] == m[k]);
            assert(touches(m[k], x));
        } else {
            assert(n[k] == p);
        }
    }
}

proof fn lemma_covers_remove(m: Seq<(u8, u8)>, t: int, x: u8)
    requires
        0 <= t < m.len(),
        x != m[t].0,
        x != m[t].1,
    ensures
        covers(m.remove(t), x) == covers(m, x),
{
    let r = m.remove(t);
    m.remove_ensures(t);
    if covers(m, x) {
        let k = choose|k: int| 0 <= k < m.len() && touches(m[k], x);
        assert(k != t);
        if k < t {
            assert(r[k] == m[k]);
            assert(touches(r[k], x));
        } else {
            assert(r[k - 1] == m[k]);
            assert(touches(r[k - 1], x));
        }
    }
    if covers(r, x) {
        let k = choose|k: int| 0 <= k < r.len() && touches(r[k], x);
        if k < t {
            assert(r[k] == m[k]);
            assert(touches(m[k], x));
        } else {
            assert(r[k] == m[k + 1]);
            assert(touches(m[k + 1], x));
        }
    }
}

// ---------------------------------------------------------------------------
// Sums.

proof fn lemma_pair_sum_remove(cards: Seq<Card>, m: Seq<(u8, u8)>, t: int)
    requires
        0 <= t < m.len(),
    ensures
        pair_sum(cards, m) == pair_value_spec(cards[m[t].0 as int], cards[m[t].1 as int])
            + pair_sum(cards, m.remove(t)),
    decreases m.len(),
{
    if t == m.len() - 1 {
        assert(m.remove(t) == m.drop_last());
    } else {
        assert(m.remove(t).drop_last() == m.drop_last().remove(t));
        assert(m.remove(t).last() == m.last());
        lemma_pair_sum_remove(cards, m.drop_last(), t);
    }
}

proof fn lemma_unpaired_remove_covered(cards: Seq<Card>, rem: Seq<u8>, q: int, m: Seq<(u8, u8)>)
    requires
        0 <= q < rem.len(),
        covers(m, rem[q]),
    ensures
        unpaired_sum(cards, rem, m) == unpaired_sum(cards, rem.remove(q), m),
    decreases rem.len(),
{
    if q == 0 {
        assert(rem.remove(0) == rem.drop_first());
    } else {
        assert(rem.remove(q)[0] == rem[0]);
        assert(rem.remove(q).drop_first() == rem.drop_first().remove(q - 1));
        lemma_unpaired_remove_covered(cards, rem.drop_first(), q - 1, m);
    }
}

proof fn lemma_unpaired_congruent(
    cards: Seq<Card>,
    rem: Seq<u8>,
    m1: Seq<(u8, u8)>,
    m2: Seq<(u8, u8)>,
)
    requires
        forall|i: int| 0 <= i < rem.len() ==> covers(m1, #[trigger] rem[i]) == covers(m2, rem[i]),
    ensures
        unpaired_sum(cards, rem, m1) == unpaired_sum(cards, rem, m2),
    decreases rem.len(),
{
    if rem.len() > 0 {
        assert(covers(m1, rem[0]) == covers(m2, rem[0]));
        let d = rem.drop_first();
        assert forall|i: int| 0 <= i < d.len() implies covers(m1, #[trigger] d[i]) == covers(
            m2,
            d[i],
        ) by {
            assert(d[i] == rem[i + 1]);
        }
        lemma_unpaired_congruent(cards, d, m1, m2);
    }
}

// ---------------------------------------------------------------------------
// The search picks the minimum.

proof fn lemma_upto_le_base(cards: Seq<Card>, f: u8, rest: Seq<u8>, k: int, base: (int, Seq<(u8, u8)>))
    ensures
        best_upto(cards, f, rest, k, base).0 <= base.0,
    decreases k,
{
    if !(k <= 0 || k > rest.len()) {
        lemma_upto_le_base(cards, f, rest, k - 1, base);
    }
}

proof fn lemma_upto_le_candidate(
    cards: Seq<Card>,
    f: u8,
    rest: Seq<u8>,
    k: int,
    base: (int, Seq<(u8, u8)>),
    q: int,
)
    requires
        0 <= q < k <= rest.len(),
        pairs_spec(cards[f as int], cards[rest[q] as int]),
    ensures
        best_upto(cards, f, rest, k, base).0 <= pair_value_spec(
            cards[f as int],
            cards[rest[q] as int],
        ) + best(cards, rest.remove(q)).0,
    decreases k,
{
    if q < k - 1 {
        lemma_upto_le_candidate(cards, f, rest, k - 1, base, q);
    }
}

// ---------------------------------------------------------------------------
// The reported pairing is valid and achieves the reported score.

proof fn lemma_best_is_matching(cards: Seq<Card>, rem: Seq<u8>)
    requires
        rem.no_duplicates(),
    ensures
        is_matching(cards, rem, best(cards, rem).1),
        matching_score(cards, rem, best(cards, rem).1) == best(cards, rem).0,
    decreases rem.len(), rem.len(),
{
    if rem.len() > 0 {
        let f = rem[0];
        let rest = rem.drop_first();
        lemma_remove_contains(rem, 0, f);
        assert(rem.remove(0) == rest);
        assert(!rest.contains(f));
        let sub = best(cards, rest);
        lemma_best_is_matching(cards, rest);
        let base = (cards[f as int].rank.value() + sub.0, sub.1);
        // The base option is a pairing of `rem` leaving `f` uncovered.
        assert forall|k: int| 0 <= k < sub.1.len() implies rem.contains(#[trigger] sub.1[k].0)
            && rem.contains(sub.1[k].1) by {
            let a = choose|i: int| 0 <= i < rest.len() && rest[i] == sub.1[k].0;
            let b = choose|i: int| 0 <= i < rest.len() && rest[i] == sub.1[k].1;
            assert(rem[a + 1] == sub.1[k].0);
            assert(rem[b + 1] == sub.1[k].1);
        }
        if covers(sub.1, f) {
            let k = choose|k: int| 0 <= k < sub.1.len() && touches(sub.1[k], f);
            assert(rest.contains(sub.1[k].0) && rest.contains(sub.1[k].1));
        }
        assert(unpaired_sum(cards, rem, sub.1) == cards[f as int].rank.value() + unpaired_sum(cards, rest, sub.1));
        lemma_upto_is_matching(cards, rem, f, rest, rest.len() as int, base);
    }
}

#[verifier::spinoff_prover]
proof fn lemma_upto_is_matching(
    cards: Seq<Card>,
    rem: Seq<u8>,
    f: u8,
    rest: Seq<u8>,
    k: int,
    base: (int, Seq<(u8, u8)>),
)
    requires
        rem.no_duplicates(),
        rem.len() >= 1,
        f == rem[0],
        rest == rem.drop_first(),
        is_matching(cards, rem, base.1),
        matching_score(cards, rem, base.1) == base.0,
    ensures
        is_matching(cards, rem, best_upto(cards, f, rest, k, base).1),
        matching_score(cards, rem, best_upto(cards, f, rest, k, base).1) == best_upto(
            cards,
            f,
            rest,
            k,
            base,
        ).0,
    decreases rest.len() + 1, k,
{
    if !(k <= 0 || k > rest.len()) {
        lemma_upto_is_matching(cards, rem, f, rest, k - 1, base);
        let prev = best_upto(cards, f, rest, k - 1, base);
        let j = rest[k - 1];
        if pairs_spec(cards[f as int], cards[j as int]) {
            let q = k - 1;
            let srem = rest.remove(q);
            let sub = best(cards, srem);
            let total = pair_value_spec(cards[f as int], cards[j as int]) + sub.0;
            if total < prev.0 {
                lemma_remove_contains(rem, 0, f);
                assert(rem.remove(0) == rest);
                lemma_remove_contains(rest, q, f);
                assert(rest.no_duplicates());
                assert(srem.no_duplicates());
                lemma_best_is_matching(cards, srem);
                let m = sub.1;
                let n = m.push((f, j));
                assert(rem[k] == j);
                assert(rem.contains(j));
                assert(j != f);
                // Endpoints of the sub-pairing lie in `srem`, hence avoid f and j.
                assert forall|t: int| 0 <= t < m.len() implies rem.contains(#[trigger] m[t].0)
                    && rem.contains(m[t].1) && m[t].0 != f && m[t].0 != j && m[t].1 != f
                    && m[t].1 != j by {
                    lemma_remove_contains(rest, q, m[t].0);
                    lemma_remove_contains(rest, q, m[t].1);
                    let a = choose|i: int| 0 <= i < rest.len() && rest[i] == m[t].0;
                    let b = choose|i: int| 0 <= i < rest.len() && rest[i] == m[t].1;
                    assert(rem[a + 1] == m[t].0);
                    assert(rem[b + 1] == m[t].1);
                }
                assert forall|t: int| 0 <= t < n.len() implies {
                    &&& rem.contains(#[trigger] n[t].0)
                    &&& rem.contains(n[t].1)
                    &&& n[t].0 != n[t].1
                    &&& pairs_spec(cards[n[t].0 as int], cards[n[t].1 as int])
                } by {
                    if t < m.len() {
                        assert(n[t] == m[t]);
                        assert(rem.contains(m[t].0));
                    } else {
                        assert(n[t] == (f, j));
                        assert(rem[0] == f);
                    }
                }
                assert forall|k1: int, k2: int|
                    0 <= k1 < n.len() && 0 <= k2 < n.len() && k1 != k2 implies {
                    &&& #[trigger] n[k1].0 != #[trigger] n[k2].0
                    &&& n[k1].0 != n[k2].1
                    &&& n[k1].1 != n[k2].0
                    &&& n[k1].1 != n[k2].1
                } by {
                    if k1 < m.len() {
                        assert(n[k1] == m[k1]);
                        assert(rem.contains(m[k1].0));
                    } else {
                        assert(n[k1] == (f, j));
                    }
                    if k2 < m.len() {
                        assert(n[k2] == m[k2]);
                        assert(rem.contains(m[k2].0));
                    } else {
                        assert(n[k2] == (f, j));
                    }
                }
                assert(is_matching(cards, rem, n));
                // Score.
                assert(n.drop_last() == m);
                assert(pair_sum(cards, n) == pair_sum(cards, m) + pair_value_spec(
                    cards[f as int],
                    cards[j as int],
                ));
                lemma_covers_push(m, (f, j), f);
                lemma_covers_push(m, (f, j), j);
                assert(unpaired_sum(cards, rem, n) == unpaired_sum(cards, rest, n));
                lemma_unpaired_remove_covered(cards, rest, q, n);
                assert forall|i: int| 0 <= i < srem.len() implies covers(n, #[trigger] srem[i])
                    == covers(m, srem[i]) by {
                    assert(srem.contains(srem[i]));
                    lemma_remove_contains(rest, q, srem[i]);
                    lemma_covers_push(m, (f, j), srem[i]);
                }
                lemma_unpaired_congruent(cards, srem, n, m);
            }
        }
    }
}

// ---------------------------------------------------------------------------
// No pairing beats the reported score.

#[verifier::spinoff_prover]
proof fn lemma_best_optimal(cards: Seq<Card>, rem: Seq<u8>, m: Seq<(u8, u8)>)
    requires
        rem.no_duplicates(),
        is_matching(cards, rem, m),
    ensures
        best(cards, rem).0 <= matching_score(cards, rem, m),
    decreases rem.len(),
{
    if rem.len() == 0 {
        if m.len() > 0 {
            assert(rem.contains(m[0].0));
        }
        assert(m.len() == 0);
    } else {
        let f = rem[0];
        let rest = rem.drop_first();
        lemma_remove_contains(rem, 0, f);
        assert(rem.remove(0) == rest);
        let sub = best(cards, rest);
        let base = (cards[f as int].rank.value() + sub.0, sub.1);
        if !covers(m, f) {
            assert forall|t: int| 0 <= t < m.len() implies rest.contains(#[trigger] m[t].0)
                && rest.contains(m[t].1) by {
                assert(!touches(m[t], f));
                assert(m[t].0 != f && m[t].1 != f);
                lemma_remove_contains(rem, 0, m[t].0);
                lemma_remove_contains(rem, 0, m[t].1);
            }
            assert(is_matching(cards, rest, m));
            lemma_best_optimal(cards, rest, m);
            lemma_upto_le_base(cards, f, rest, rest.len() as int, base);
        } else {
            assert(covers(m, f));
            let t = choose|t: int| 0 <= t < m.len() && touches(m[t], f);
            assert(0 <= t < m.len());
            let j = if m[t].0 == f { m[t].1 } else { m[t].0 };
            assert(rem.contains(m[t].0) && rem.contains(m[t].1) && m[t].0 != m[t].1);
            assert(j != f);
            assert(rem.contains(j));
            lemma_remove_contains(rem, 0, j);
            assert(rest.contains(j));
            let q = choose|q: int| 0 <= q < rest.len() && rest[q] == j;
            let srem = rest.remove(q);
            lemma_remove_contains(rest, q, f);
            let mr = m.remove(t);
            m.remove_ensures(t);
            // `mr` pairs the slots of `srem`.
            assert forall|i: int| 0 <= i < mr.len() implies {
                &&& srem.contains(#[trigger] mr[i].0)
                &&& srem.contains(mr[i].1)
                &&& mr[i].0 != mr[i].1
                &&& pairs_spec(cards[mr[i].0 as int], cards[mr[i].1 as int])
            } by {
                let oi = if i < t { i } else { i + 1 };
                assert(mr[i] == m[oi]);
                assert(oi != t);
                lemma_remove_contains(rem, 0, m[oi].0);
                lemma_remove_contains(rem, 0, m[oi].1);
                lemma_remove_contains(rest, q, m[oi].0);
                lemma_remove_contains(rest, q, m[oi].1);
            }
            assert forall|k1: int, k2: int|
                0 <= k1 < mr.len() && 0 <= k2 < mr.len() && k1 != k2 implies {
                &&& #[trigger] mr[k1].0 != #[trigger] mr[k2].0
                &&& mr[k1].0 != mr[k2].1
                &&& mr[k1].1 != mr[k2].0
                &&& mr[k1].1 != mr[k2].1
            } by {
                let o1 = if k1 < t { k1 } else { k1 + 1 };
                let o2 = if k2 < t { k2 } else { k2 + 1 };
                assert(mr[k1] == m[o1]);
                assert(mr[k2] == m[o2]);
                assert(o1 != o2);
                assert(m[o1].0 != m[o2].0);
            }
            assert(is_matching(cards, srem, mr));
            assert(srem.no_duplicates()) by {
                lemma_remove_contains(rem, 0, f);
            }
            lemma_best_optimal(cards, srem, mr);
            // Score of `m` decomposes through the pair (f, j).
            lemma_pair_sum_remove(cards, m, t);
            assert(pair_value_spec(cards[m[t].0 as int], cards[m[t].1 as int]) == pair_value_spec(
                cards[f as int],
                cards[j as int],
            ));
            assert(unpaired_sum(cards, rem, m) == unpaired_sum(cards, rest, m));
            assert(covers(m, rest[q])) by {
                assert(touches(m[t], j));
            }
            lemma_unpaired_remove_covered(cards, rest, q, m);
            assert forall|i: int| 0 <= i < srem.len() implies covers(m, #[trigger] srem[i])
                == covers(mr, srem[i]) by {
                assert(srem.contains(srem[i]));
                lemma_remove_contains(rest, q, srem[i]);
                lemma_remove_contains(rem, 0, srem[i]);
                lemma_covers_remove(m, t, srem[i]);
            }
            lemma_unpaired_congruent(cards, srem, m, mr);
            assert(pairs_spec(cards[f as int], cards[rest[q] as int]));
            lemma_upto_le_candidate(cards, f, rest, rest.len() as int, base, q);
        }
    }
}

/// The reported pairing is a valid pairing of all six slots, it scores
/// exactly the reported hand score, and no valid pairing scores lower.
pub proof fn lemma_optimal_pairing_correct(cards: Seq<Card>)
    ensures
        is_matching(cards, all_slots(), optimal_pairs(cards)),
        matching_score(cards, all_slots(), optimal_pairs(cards)) == hand_score(cards),
        forall|m: Seq<(u8, u8)>|
            is_matching(cards, all_slots(), m) ==> hand_score(cards) <= #[trigger] matching_score(
                cards,
                all_slots(),
                m,
            ),
{
    assert(all_slots().no_duplicates());
    lemma_best_is_matching(cards, all_slots());
    assert forall|m: Seq<(u8, u8)>| is_matching(cards, all_slots(), m) implies hand_score(cards)
        <= #[trigger] matching_score(cards, all_slots(), m) by {
        lemma_best_optimal(cards, all_slots(), m);
    }
}

// ---------------------------------------------------------------------------
// Executable search.

fn best_pairing(cards: &[Card; 6], rem: &Vec<u8>) -> (r: (i32, Vec<(u8, u8)>))
    requires
        forall|i: int| 0 <= i < rem@.len() ==> rem@[i] < 6,
        rem@.len() <= 6,
    ensures
        r.0 == best(cards@, rem@).0,
        r.1@ == best(cards@, rem@).1,
    decreases rem@.len(),
{
    if rem.len() == 0 {
        return (0, Vec::new());
    }
    let first = rem[0];
    let mut rest: Vec<u8> = Vec::new();
    let mut i: usize = 1;
    while i < rem.len()
        invariant
            1 <= i <= rem@.len(),
            rest@ == rem@.subrange(1, i as int),
        decreases rem@.len() - i,
    {
        rest.push(rem[i]);
        i += 1;
    }
    assert(rest@ == rem@.drop_first());
    let ghost g_rest = rest@;
    let (score, pairs) = best_pairing(cards, &rest);
    proof {
        lemma_best_bounds(cards@, rest@);
    }
    let mut best_score = score + cards[first as usize].rank.unpaired_value();
    let mut best_pairs = pairs;
    let ghost base = (best_score as int, best_pairs@);
    assert(base == (cards@[first as int].rank.value() + best(cards@, rest@).0, best(
        cards@,
        rest@,
    ).1));
    let mut k: usize = 0;
    while k < rest.len()
        invariant
            rest@ == g_rest,
            g_rest == rem@.drop_first(),
            first == rem@[0],
            first < 6,
            rem@.len() >= 1,
            forall|i: int| 0 <= i < rem@.len() ==> rem@[i] < 6,
            rem@.len() <= 6,
            rest@.len() + 1 == rem@.len(),
            -2 * (rest@.len() + 1) <= base.0 <= 10 * (rest@.len() + 1),
            k <= rest@.len(),
            base == (cards@[first as int].rank.value() + best(cards@, rest@).0, best(
                cards@,
                rest@,
            ).1),
            (best_score as int, best_pairs@) == best_upto(cards@, first, rest@, k as int, base),
        decreases rest@.len() - k,
    {
        let j = rest[k];
        let a = cards[first as usize];
        let b = cards[j as usize];
        proof {
            lemma_upto_bounds(cards@, first, rest@, k as int, base);
        }
        if pairs_with(a, b) {
            let mut sub: Vec<u8> = Vec::new();
            let mut t: usize = 0;
            while t < rest.len()
                invariant
                    k < rest@.len(),
                    t <= rest@.len(),
                    sub@ == (if t <= k {
                        rest@.subrange(0, t as int)
                    } else {
                        rest@.remove(k as int).subrange(0, t - 1)
                    }),
                decreases rest@.len() - t,
            {
                if t != k {
                    sub.push(rest[t]);
                }
                t += 1;
                proof {
                    if t > k + 1 {
                        assert(rest@.remove(k as int).subrange(0, t - 1) == rest@.remove(
                            k as int,
                        ).subrange(0, t - 2).push(rest@[t - 1]));
                    }
                }
            }
            assert(sub@ == rest@.remove(k as int));
            let (score, mut pairs) = best_pairing(cards, &sub);
            proof {
                lemma_best_bounds(cards@, sub@);
            }
            let total = score + pair_value(a, b);
            if total < best_score {
                pairs.push((first, j));
                best_score = total;
                best_pairs = pairs;
            }
        }
        k += 1;
    }
    (best_score, best_pairs)
}

/// Minimum score plus one pairing (slot index pairs) that achieves it.
///
/// Exhaustive search over all partial matchings of the 6 cards, so the
/// optimizer naturally leaves two aces unpaired (−4 beats −2) and pairs an
/// ace with the most expensive leftover card.
pub fn optimal_pairing(cards: &[Card; 6]) -> (r: (i32, Vec<(u8, u8)>))
    ensures
        r.0 == hand_score(cards@),
        r.1@ == optimal_pairs(cards@),
        is_matching(cards@, all_slots(), r.1@),
        matching_score(cards@, all_slots(), r.1@) == r.0,
        forall|m: Seq<(u8, u8)>|
            is_matching(cards@, all_slots(), m) ==> r.0 <= #[trigger] matching_score(
                cards@,
                all_slots(),
                m,
            ),
{
    let rem: Vec<u8> = vec![0, 1, 2, 3, 4, 5];
    assert(rem@ == all_slots());
    proof {
        lemma_optimal_pairing_correct(cards@);
    }
    best_pairing(cards, &rem)
}

/// A hand scores between −12 (six aces) and 60.
pub proof fn lemma_hand_score_bounds(cards: Seq<Card>)
    ensures
        -12 <= hand_score(cards) <= 60,
{
    lemma_best_bounds(cards, all_slots());
}

/// Minimum score of a hand under the optimal pairing.
pub fn score_hand(cards: &[Card; 6]) -> (r: i32)
    ensures
        r == hand_score(cards@),
        -12 <= r <= 60,
{
    proof {
        lemma_best_bounds(cards@, all_slots());
    }
    optimal_pairing(cards).0
}

// ---------------------------------------------------------------------------
// The same search over a list of card values (any length).

/// Minimum score of a list of cards, searching as `best` does but on the
/// cards themselves rather than on slot indices.
pub open spec fn best_val(cs: Seq<Card>) -> int
    decreases cs.len(), cs.len(),
{
    if cs.len() == 0 {
        0
    } else {
        let f = cs[0];
        let rest = cs.drop_first();
        val_upto(f, rest, rest.len() as int, f.rank.value() + best_val(rest))
    }
}

/// The lowest of `base` and the pairings of `f` with `rest[0..k]`.
pub open spec fn val_upto(f: Card, rest: Seq<Card>, k: int, base: int) -> int
    decreases rest.len() + 1, k,
{
    if k <= 0 || k > rest.len() {
        base
    } else {
        let prev = val_upto(f, rest, k - 1, base);
        let c = rest[k - 1];
        if pairs_spec(f, c) {
            let total = pair_value_spec(f, c) + best_val(rest.remove(k - 1));
            if total < prev {
                total
            } else {
                prev
            }
        } else {
            prev
        }
    }
}

pub proof fn lemma_best_val_bounds(cs: Seq<Card>)
    ensures
        -2 * cs.len() <= best_val(cs) <= 10 * cs.len(),
    decreases cs.len(), cs.len(),
{
    if cs.len() > 0 {
        let f = cs[0];
        let rest = cs.drop_first();
        lemma_best_val_bounds(rest);
        lemma_val_upto_bounds(f, rest, rest.len() as int, f.rank.value() + best_val(rest));
    }
}

pub proof fn lemma_val_upto_bounds_pub(f: Card, rest: Seq<Card>, k: int, base: int)
    requires
        -2 * (rest.len() + 1) <= base <= 10 * (rest.len() + 1),
    ensures
        -2 * (rest.len() + 1) <= val_upto(f, rest, k, base) <= 10 * (rest.len() + 1),
{
    lemma_val_upto_bounds(f, rest, k, base);
}

proof fn lemma_val_upto_bounds(f: Card, rest: Seq<Card>, k: int, base: int)
    requires
        -2 * (rest.len() + 1) <= base <= 10 * (rest.len() + 1),
    ensures
        -2 * (rest.len() + 1) <= val_upto(f, rest, k, base) <= 10 * (rest.len() + 1),
    decreases rest.len() + 1, k,
{
    if !(k <= 0 || k > rest.len()) {
        lemma_val_upto_bounds(f, rest, k - 1, base);
        if pairs_spec(f, rest[k - 1]) {
            lemma_best_val_bounds(rest.remove(k - 1));
        }
    }
}

/// The cards at the slots of `rem`, in order.
pub open spec fn cards_at(cards: Seq<Card>, rem: Seq<u8>) -> Seq<Card> {
    rem.map_values(|i: u8| cards[i as int])
}

proof fn lemma_best_is_best_val(cards: Seq<Card>, rem: Seq<u8>)
    ensures
        best(cards, rem).0 == best_val(cards_at(cards, rem)),
    decreases rem.len(), rem.len(),
{
    if rem.len() > 0 {
        let f = rem[0];
        let rest = rem.drop_first();
        assert(cards_at(cards, rem)[0] == cards[f as int]);
        assert(cards_at(cards, rem).drop_first() == cards_at(cards, rest));
        lemma_best_is_best_val(cards, rest);
        let sub = best(cards, rest);
        lemma_upto_is_val_upto(
            cards,
            f,
            rest,
            rest.len() as int,
            (cards[f as int].rank.value() + sub.0, sub.1),
        );
    }
}

proof fn lemma_upto_is_val_upto(
    cards: Seq<Card>,
    f: u8,
    rest: Seq<u8>,
    k: int,
    base: (int, Seq<(u8, u8)>),
)
    ensures
        best_upto(cards, f, rest, k, base).0 == val_upto(
            cards[f as int],
            cards_at(cards, rest),
            k,
            base.0,
        ),
    decreases rest.len() + 1, k,
{
    if !(k <= 0 || k > rest.len()) {
        lemma_upto_is_val_upto(cards, f, rest, k - 1, base);
        let j = rest[k - 1];
        assert(cards_at(cards, rest)[k - 1] == cards[j as int]);
        if pairs_spec(cards[f as int], cards[j as int]) {
            assert(cards_at(cards, rest).remove(k - 1) == cards_at(cards, rest.remove(k - 1)));
            lemma_best_is_best_val(cards, rest.remove(k - 1));
        }
    }
}

/// The slots of a list of `n` cards, in order.
pub open spec fn index_slots(n: nat) -> Seq<u8> {
    Seq::new(n, |i: int| i as u8)
}

/// `best_val` is the optimal score of a list of cards of any length (that
/// slots can number): some valid pairing of all its cards scores exactly
/// `best_val`, and no valid pairing scores lower.
pub proof fn lemma_best_val_optimal(cs: Seq<Card>)
    requires
        cs.len() <= 256,
    ensures
        is_matching(cs, index_slots(cs.len()), best(cs, index_slots(cs.len())).1),
        matching_score(cs, index_slots(cs.len()), best(cs, index_slots(cs.len())).1) == best_val(cs),
        forall|m: Seq<(u8, u8)>|
            is_matching(cs, index_slots(cs.len()), m) ==> best_val(cs) <= #[trigger] matching_score(
                cs,
                index_slots(cs.len()),
                m,
            ),
{
    let slots = index_slots(cs.len());
    assert forall|i: int, j: int| 0 <= i < slots.len() && 0 <= j < slots.len() && i != j implies slots[i]
        != slots[j] by {}
    assert(slots.no_duplicates());
    assert(cards_at(cs, slots) =~= cs);
    lemma_best_is_best_val(cs, slots);
    lemma_best_is_matching(cs, slots);
    assert forall|m: Seq<(u8, u8)>| is_matching(cs, slots, m) implies best_val(cs)
        <= #[trigger] matching_score(cs, slots, m) by {
        lemma_best_optimal(cs, slots, m);
    }
}

/// Searching the six cards directly gives the hand score.
pub proof fn lemma_hand_score_is_best_val(cards: Seq<Card>)
    requires
        cards.len() == 6,
    ensures
        hand_score(cards) == best_val(cards),
{
    lemma_best_is_best_val(cards, all_slots());
    assert(cards_at(cards, all_slots()) == cards);
}

} // verus!
