//! The scoring engine: point events for a pegging sequence and for a
//! four-card hand with its cut card, and the crib variant.

use vstd::prelude::*;
use vstd::pervasive::VecAdditionalExecFns;
use crate::combinatorics::{binom, combinations, combos, views_of};
use crate::deck::{Card, Rank, rank_ordinal, rank_value};

verus! {

/// The pip-value sum of a sequence of cards.
pub open spec fn pip_sum(s: Seq<Card>) -> int
    decreases s.len(),
{
    if s.len() == 0 {
        0
    } else {
        pip_sum(s.drop_last()) + rank_value(s.last().rank)
    }
}

/// Pip sums add over concatenation.
pub proof fn lemma_pip_sum_concat(a: Seq<Card>, b: Seq<Card>)
    ensures
        pip_sum(a + b) == pip_sum(a) + pip_sum(b),
    decreases b.len(),
{
    if b.len() == 0 {
        assert(a + b =~= a);
    } else {
        lemma_pip_sum_concat(a, b.drop_last());
        assert((a + b).drop_last() =~= a + b.drop_last());
        assert((a + b).last() == b.last());
    }
}

/// Every card counts between one and ten pips.
pub proof fn lemma_pip_sum_bounds(s: Seq<Card>)
    ensures
        s.len() <= pip_sum(s) <= 10 * s.len(),
    decreases s.len(),
{
    if s.len() > 0 {
        lemma_pip_sum_bounds(s.drop_last());
    }
}

/// A prefix never sums to more than the whole.
pub proof fn lemma_pip_sum_prefix(s: Seq<Card>, i: int)
    requires
        0 <= i <= s.len(),
    ensures
        pip_sum(s.take(i)) <= pip_sum(s),
        0 <= pip_sum(s.take(i)),
{
    assert(s =~= s.take(i) + s.skip(i));
    lemma_pip_sum_concat(s.take(i), s.skip(i));
    lemma_pip_sum_bounds(s.take(i));
    lemma_pip_sum_bounds(s.skip(i));
}

/// The pip-value total of the given cards. The total must stay within
/// a single byte.
pub fn total_of(cards: &Vec<Card>) -> (total: u8)
    requires
        pip_sum(cards@) <= 255,
    ensures
        total as int == pip_sum(cards@),
{
    let mut total: u8 = 0;
    let mut i: usize = 0;
    while i < cards.len()
        invariant
            i <= cards@.len(),
            total as int == pip_sum(cards@.take(i as int)),
            pip_sum(cards@) <= 255,
        decreases cards@.len() - i,
    {
        proof {
            lemma_pip_sum_prefix(cards@, i + 1);
            lemma_pip_sum_bounds(cards@.take(i + 1));
            assert(cards@.take(i + 1).drop_last() =~= cards@.take(i as int));
            assert(cards@.take(i + 1).last() == cards@[i as int]);
        }
        total = total + cards[i].rank.value();
        i += 1;
    }
    proof {
        assert(cards@.take(cards@.len() as int) =~= cards@);
    }
    total
}

/// The ordinals of a sequence of cards.
pub open spec fn ord_seq(s: Seq<Card>) -> Seq<int> {
    s.map_values(|c: Card| rank_ordinal(c.rank))
}

/// The least ordinal among the cards.
pub open spec fn min_ord(s: Seq<Card>) -> int
    recommends
        s.len() >= 1,
    decreases s.len(),
{
    if s.len() <= 1 {
        rank_ordinal(s[0].rank)
    } else {
        let m = min_ord(s.drop_last());
        if rank_ordinal(s.last().rank) < m {
            rank_ordinal(s.last().rank)
        } else {
            m
        }
    }
}

/// The greatest ordinal among the cards.
pub open spec fn max_ord(s: Seq<Card>) -> int
    recommends
        s.len() >= 1,
    decreases s.len(),
{
    if s.len() <= 1 {
        rank_ordinal(s[0].rank)
    } else {
        let m = max_ord(s.drop_last());
        if rank_ordinal(s.last().rank) > m {
            rank_ordinal(s.last().rank)
        } else {
            m
        }
    }
}

/// The cards form a run: at least three of them, no two sharing a rank,
/// and their ordinals an unbroken consecutive stretch — they span
/// exactly as many ordinals as there are cards.
pub open spec fn is_run(s: Seq<Card>) -> bool {
    s.len() >= 3 && ord_seq(s).no_duplicates() && max_ord(s) - min_ord(s) + 1 == s.len()
}

/// Some card of `s` has ordinal `o`.
pub open spec fn has_ord(s: Seq<Card>, o: int) -> bool {
    exists|i: int| 0 <= i < s.len() && rank_ordinal(s[i].rank) == o
}

/// Every ordinal lies between the least and the greatest, and both are
/// attained.
proof fn lemma_ord_bounds(s: Seq<Card>)
    requires
        s.len() >= 1,
    ensures
        forall|i: int|
            0 <= i < s.len() ==> min_ord(s) <= rank_ordinal(#[trigger] s[i].rank) <= max_ord(s),
        has_ord(s, min_ord(s)),
        has_ord(s, max_ord(s)),
    decreases s.len(),
{
    if s.len() == 1 {
        assert(rank_ordinal(s[0].rank) == min_ord(s));
    } else {
        lemma_ord_bounds(s.drop_last());
        assert(forall|i: int| 0 <= i < s.len() - 1 ==> s.drop_last()[i] == s[i]);
        if min_ord(s) == rank_ordinal(s.last().rank) {
            assert(rank_ordinal(s[s.len() - 1].rank) == min_ord(s));
        } else {
            let i = choose|i: int|
                0 <= i < s.drop_last().len() && rank_ordinal(s.drop_last()[i].rank) == min_ord(
                    s.drop_last(),
                );
            assert(rank_ordinal(s[i].rank) == min_ord(s));
        }
        if max_ord(s) == rank_ordinal(s.last().rank) {
            assert(rank_ordinal(s[s.len() - 1].rank) == max_ord(s));
        } else {
            let i = choose|i: int|
                0 <= i < s.drop_last().len() && rank_ordinal(s.drop_last()[i].rank) == max_ord(
                    s.drop_last(),
                );
            assert(rank_ordinal(s[i].rank) == max_ord(s));
        }
    }
}

/// From base ordinal `b`, every value up to `b` plus the card count is
/// present among the cards.
pub open spec fn covers_from(s: Seq<Card>, b: int) -> bool {
    forall|o: int| b <= o < b + s.len() ==> #[trigger] has_ord(s, o)
}

/// A run is exactly a group of at least three cards whose ordinals fill
/// an unbroken consecutive stretch: from some base ordinal, every value
/// up to the base plus the card count is present among the cards.
pub proof fn lemma_run_is_consecutive(s: Seq<Card>)
    requires
        s.len() >= 3,
    ensures
        is_run(s) <==> (exists|b: int| #[trigger] covers_from(s, b)),
{
    broadcast use vstd::set::group_set_axioms, vstd::seq_lib::seq_to_set_is_finite;

    let ords = ord_seq(s);
    let ordset = ords.to_set();
    let n = s.len() as int;
    assert forall|o: int| has_ord(s, o) <==> ordset.contains(o) by {
        if has_ord(s, o) {
            let i = choose|i: int| 0 <= i < s.len() && rank_ordinal(s[i].rank) == o;
            assert(ords[i] == o);
            assert(ords.contains(o));
        }
        if ordset.contains(o) {
            let i = choose|i: int| 0 <= i < ords.len() && ords[i] == o;
            assert(rank_ordinal(s[i].rank) == o);
            assert(has_ord(s, o));
        }
    }
    if is_run(s) {
        lemma_ord_bounds(s);
        ords.unique_seq_to_set();
        let lo = min_ord(s);
        let hi = max_ord(s) + 1;
        vstd::set_lib::lemma_int_range(lo, hi);
        let t = vstd::set_lib::set_int_range(lo, hi);
        assert(ordset.subset_of(t)) by {
            assert forall|o: int| ordset.contains(o) implies t.contains(o) by {
                let i = choose|i: int| 0 <= i < ords.len() && ords[i] == o;
                assert(lo <= rank_ordinal(s[i].rank) <= hi - 1);
            }
        }
        assert forall|o: int| lo <= o < lo + n implies #[trigger] has_ord(s, o) by {
            assert(t.contains(o));
            if !ordset.contains(o) {
                assert(ordset.subset_of(t.remove(o)));
                vstd::set_lib::lemma_len_subset(ordset, t.remove(o));
                assert(t.remove(o).len() == t.len() - 1);
            }
        }
        assert(covers_from(s, lo));
    }
    if exists|b: int| #[trigger] covers_from(s, b) {
        let b = choose|b: int| #[trigger] covers_from(s, b);
        let t = vstd::set_lib::set_int_range(b, b + n);
        vstd::set_lib::lemma_int_range(b, b + n);
        assert(t.subset_of(ordset)) by {
            assert forall|o: int| t.contains(o) implies ordset.contains(o) by {
                assert(has_ord(s, o));
            }
        }
        vstd::set_lib::lemma_len_subset(t, ordset);
        ords.lemma_cardinality_of_set();
        assert(ordset.len() == n);
        ords.lemma_no_dup_set_cardinality();
        assert forall|o: int| ordset.contains(o) implies t.contains(o) by {
            if !t.contains(o) {
                assert(t.subset_of(ordset.remove(o)));
                vstd::set_lib::lemma_len_subset(t, ordset.remove(o));
                assert(ordset.remove(o).len() == n - 1);
            }
        }
        lemma_ord_bounds(s);
        assert(ordset.contains(min_ord(s)) && ordset.contains(max_ord(s))) by {
            assert(has_ord(s, min_ord(s)) && has_ord(s, max_ord(s)));
        }
        assert(b <= min_ord(s) && max_ord(s) < b + n);
        assert(min_ord(s) <= b) by {
            assert(has_ord(s, b));
            let i = choose|i: int| 0 <= i < s.len() && rank_ordinal(s[i].rank) == b;
        }
        assert(b + n - 1 <= max_ord(s)) by {
            assert(has_ord(s, b + n - 1));
            let i = choose|i: int| 0 <= i < s.len() && rank_ordinal(s[i].rank) == b + n - 1;
        }
        assert(is_run(s));
    }
}

/// How many cards at the tail of the played sequence share the rank of
/// the last card, walking backward while consecutive cards match.
pub open spec fn tail_match_len(played: Seq<Card>) -> nat
    decreases played.len(),
{
    if played.len() == 0 {
        0
    } else if played.len() >= 2 && played[played.len() - 2].rank == played[played.len() - 1].rank {
        (1 + tail_match_len(played.drop_last())) as nat
    } else {
        1
    }
}

/// The matching tail itself.
pub open spec fn peg_tail(played: Seq<Card>) -> Seq<Card> {
    played.skip(played.len() - tail_match_len(played))
}

/// The longest length `l` with `3 <= l <= cap` whose trailing `l` cards
/// form a run, or zero if none does.
pub open spec fn longest_tail_run(played: Seq<Card>, cap: nat) -> nat
    decreases cap,
{
    if cap < 3 {
        0
    } else if cap <= played.len() && is_run(played.skip(played.len() - cap)) {
        cap
    } else {
        longest_tail_run(played, (cap - 1) as nat)
    }
}

/// A trailing run is never shorter than three nor longer than the cap.
pub proof fn lemma_longest_tail_run_range(played: Seq<Card>, cap: nat)
    ensures
        longest_tail_run(played, cap) == 0 || 3 <= longest_tail_run(played, cap),
        longest_tail_run(played, cap) <= cap,
    decreases cap,
{
    if cap >= 3 {
        lemma_longest_tail_run_range(played, (cap - 1) as nat);
    }
}

/// A point-scoring event during pegging.
#[derive(Clone, Debug, PartialEq, Eq)]
pub enum PeggingScorings {
    Fifteen,
    Pair(Vec<Card>),
    RunOfThree,
    RunOfFour,
    RunOfFive,
    RunOfSix,
    RunOfSeven,
    ThirtyOne,
    LastCard,
}

/// The mathematical value of a pegging event.
pub enum PegEvent {
    Fifteen,
    Pair(Seq<Card>),
    RunOfThree,
    RunOfFour,
    RunOfFive,
    RunOfSix,
    RunOfSeven,
    ThirtyOne,
    LastCard,
}

impl View for PeggingScorings {
    type V = PegEvent;

    open spec fn view(&self) -> PegEvent {
        match self {
            PeggingScorings::Fifteen => PegEvent::Fifteen,
            PeggingScorings::Pair(v) => PegEvent::Pair(v@),
            PeggingScorings::RunOfThree => PegEvent::RunOfThree,
            PeggingScorings::RunOfFour => PegEvent::RunOfFour,
            PeggingScorings::RunOfFive => PegEvent::RunOfFive,
            PeggingScorings::RunOfSix => PegEvent::RunOfSix,
            PeggingScorings::RunOfSeven => PegEvent::RunOfSeven,
            PeggingScorings::ThirtyOne => PegEvent::ThirtyOne,
            PeggingScorings::LastCard => PegEvent::LastCard,
        }
    }
}

/// The views of a list of pegging events.
pub open spec fn peg_views(s: Seq<PeggingScorings>) -> Seq<PegEvent> {
    s.map_values(|e: PeggingScorings| e@)
}

/// The points a pegging event is worth.
pub open spec fn peg_value(e: PegEvent) -> int {
    match e {
        PegEvent::Fifteen => 2,
        PegEvent::Pair(_) => 2,
        PegEvent::RunOfThree => 3,
        PegEvent::RunOfFour => 4,
        PegEvent::RunOfFive => 5,
        PegEvent::RunOfSix => 6,
        PegEvent::RunOfSeven => 7,
        PegEvent::ThirtyOne => 2,
        PegEvent::LastCard => 1,
    }
}

impl PeggingScorings {
    /// The points this event is worth.
    pub fn value(&self) -> (v: u8)
        ensures
            v as int == peg_value(self@),
    {
        match self {
            PeggingScorings::Fifteen => 2,
            PeggingScorings::Pair(_) => 2,
            PeggingScorings::RunOfThree => 3,
            PeggingScorings::RunOfFour => 4,
            PeggingScorings::RunOfFive => 5,
            PeggingScorings::RunOfSix => 6,
            PeggingScorings::RunOfSeven => 7,
            PeggingScorings::ThirtyOne => 2,
            PeggingScorings::LastCard => 1,
        }
    }
}

/// The run event for a run of length `l`.
pub open spec fn peg_run_event(l: nat) -> PegEvent {
    if l == 3 {
        PegEvent::RunOfThree
    } else if l == 4 {
        PegEvent::RunOfFour
    } else if l == 5 {
        PegEvent::RunOfFive
    } else if l == 6 {
        PegEvent::RunOfSix
    } else {
        PegEvent::RunOfSeven
    }
}

/// The events a pegging sequence scores: a fifteen or a thirty-one on
/// the whole total; one pair event per two-card subset of the matching
/// tail; and the single longest trailing run, if any of length three to
/// seven ends the sequence.
pub open spec fn peg_score(played: Seq<Card>) -> Seq<PegEvent> {
    let count_part = if pip_sum(played) == 15 {
        seq![PegEvent::Fifteen]
    } else if pip_sum(played) == 31 {
        seq![PegEvent::ThirtyOne]
    } else {
        Seq::<PegEvent>::empty()
    };
    let pair_part = combos(peg_tail(played), 2).map_values(|t: Seq<Card>| PegEvent::Pair(t));
    let cap: nat = if played.len() < 7 {
        played.len()
    } else {
        7
    };
    let l = longest_tail_run(played, cap);
    let run_part = if l == 0 {
        Seq::<PegEvent>::empty()
    } else {
        seq![peg_run_event(l)]
    };
    count_part + pair_part + run_part
}

/// Whether the cards of `cards` from index `from` to the end form a run.
pub fn trailing_run_check(cards: &Vec<Card>, from: usize) -> (r: bool)
    requires
        from <= cards@.len(),
    ensures
        r == is_run(cards@.skip(from as int)),
{
    let ghost s = cards@.skip(from as int);
    let n = cards.len() - from;
    if n < 3 {
        return false;
    }
    let mut seen: Vec<bool> = Vec::new();
    let mut o: usize = 0;
    while o < 14
        invariant
            o <= 14,
            seen@.len() == o,
            forall|k: int| 0 <= k < o ==> !seen@[k],
        decreases 14 - o,
    {
        seen.push(false);
        o += 1;
    }
    let mut mn: usize = 14;
    let mut mx: usize = 0;
    let mut idx: usize = from;
    while idx < cards.len()
        invariant
            from <= idx <= cards@.len(),
            n == cards@.len() - from,
            3 <= n,
            s == cards@.skip(from as int),
            seen@.len() == 14,
            forall|k: int|
                1 <= k < 14 ==> (seen@[k] <==> ord_seq(s).take(idx - from).contains(k)),
            !seen@[0],
            ord_seq(s).take(idx - from).no_duplicates(),
            idx > from ==> (1 <= mn < 14 && mn as int == min_ord(s.take(idx - from)) && mx as int
                == max_ord(s.take(idx - from)) && mx < 14),
            idx == from ==> mn == 14 && mx == 0,
        decreases cards@.len() - idx,
    {
        let ghost i = idx - from;
        let c = cards[idx];
        let o = c.rank.ordinal();
        proof {
            assert(s[i] == cards@[from + i]);
            assert(ord_seq(s)[i] == rank_ordinal(c.rank));
            assert(1 <= rank_ordinal(c.rank) <= 13);
        }
        if seen[o] {
            proof {
                let t = ord_seq(s);
                let j = choose|j: int| 0 <= j < i && t.take(i)[j] == o as int;
                assert(t[j] == o as int && t[i] == o as int);
                assert(!t.no_duplicates());
            }
            return false;
        }
        seen.set(o, true);
        if o < mn {
            mn = o;
        }
        if o > mx {
            mx = o;
        }
        proof {
            let t = ord_seq(s);
            assert(t.take(i + 1).drop_last() =~= t.take(i));
            assert(t.take(i + 1).last() == o as int);
            assert(s.take(i + 1).drop_last() =~= s.take(i));
            assert(s.take(i + 1).last() == s[i]);
            if i == 0 {
                assert(s.take(1)[0] == s[0]);
            }
            assert forall|k: int| 1 <= k < 14 implies (seen@[k] <==> t.take(i + 1).contains(
                k,
            )) by {
                if k != o as int {
                    assert forall|m: int|
                        0 <= m < i + 1 && #[trigger] t.take(i + 1)[m] == k implies t.take(
                        i,
                    ).contains(k) by {
                        assert(m < i);
                        assert(t.take(i)[m] == k);
                    }
                    assert(t.take(i).contains(k) ==> t.take(i + 1).contains(k)) by {
                        if t.take(i).contains(k) {
                            let m = choose|m: int| 0 <= m < i && t.take(i)[m] == k;
                            assert(t.take(i + 1)[m] == k);
                        }
                    }
                } else {
                    assert(t.take(i + 1)[i] == k);
                }
            }
            assert(t.take(i + 1).no_duplicates()) by {
                assert forall|p: int, q: int|
                    0 <= p < q < i + 1 implies #[trigger] t.take(i + 1)[p] != #[trigger] t.take(
                    i + 1,
                )[q] by {
                    if q < i {
                        assert(t.take(i)[p] != t.take(i)[q]);
                    } else {
                        assert(t.take(i + 1)[q] == o as int);
                        assert(!t.take(i).contains(o as int));
                        assert(t.take(i)[p] == t.take(i + 1)[p]);
                        if t.take(i + 1)[p] == o as int {
                            assert(t.take(i).contains(o as int));
                        }
                    }
                }
            }
        }
        idx += 1;
    }
    proof {
        assert(s.take(n as int) =~= s);
        assert(ord_seq(s).take(n as int) =~= ord_seq(s));
    }
    mx - mn + 1 == n
}

/// The point-scoring events for a sequence of cards played during
/// pegging, checked once after every card laid: a fifteen or thirty-one
/// on the running total, every pair among the same-rank cards ending
/// the sequence, and the longest trailing run. The running total can
/// never exceed thirty-one.
pub fn score_pegging(played: Vec<Card>) -> (scorings: Vec<PeggingScorings>)
    requires
        pip_sum(played@) <= 31,
    ensures
        peg_views(scorings@) == peg_score(played@),
{
    let mut scorings: Vec<PeggingScorings> = Vec::new();
    let ghost count_part = if pip_sum(played@) == 15 {
        seq![PegEvent::Fifteen]
    } else if pip_sum(played@) == 31 {
        seq![PegEvent::ThirtyOne]
    } else {
        Seq::<PegEvent>::empty()
    };

    let total = total_of(&played);
    if total == 15 {
        scorings.push(PeggingScorings::Fifteen);
    } else if total == 31 {
        scorings.push(PeggingScorings::ThirtyOne);
    }
    proof {
        assert(peg_views(scorings@) =~= count_part);
    }

    // The matching tail: walk backward while consecutive ranks match.
    let n = played.len();
    let mut start: usize = if n == 0 {
        0
    } else {
        n - 1
    };
    proof {
        assert(played@.take(n as int) =~= played@);
    }
    while start > 0 && played[start - 1].rank == played[start].rank
        invariant
            n == played@.len(),
            n > 0 ==> start < n,
            n == 0 ==> start == 0,
            tail_match_len(played@) == n - start + if n == 0 {
                0int
            } else {
                tail_match_len(played@.take(start + 1)) - 1
            },
            n > 0 ==> tail_match_len(played@.take(start + 1)) >= 1,
        decreases start,
    {
        proof {
            let p = played@;
            assert(p.take(start + 1).drop_last() =~= p.take(start as int));
            assert(p.take(start + 1)[start - 1].rank == p.take(start + 1)[start as int].rank);
            assert(tail_match_len(p.take(start + 1)) == 1 + tail_match_len(p.take(start as int)));
        }
        start -= 1;
    }
    proof {
        if n > 0 {
            assert(tail_match_len(played@.take(start + 1)) == 1) by {
                if start > 0 {
                    assert(played@.take(start + 1)[start - 1].rank != played@.take(start + 1)[
                        start as int
                    ].rank);
                }
            }
            assert(tail_match_len(played@) == n - start);
        }
        assert(peg_tail(played@) == played@.skip(start as int));
    }
    let mut tail: Vec<Card> = Vec::new();
    let mut i: usize = start;
    while i < n
        invariant
            start <= i <= n,
            n == played@.len(),
            tail@ =~= played@.skip(start as int).take(i - start),
        decreases n - i,
    {
        tail.push(played[i]);
        proof {
            let sk = played@.skip(start as int);
            assert(sk.take(i - start + 1) =~= sk.take(i - start).push(played@[i as int]));
        }
        i += 1;
    }
    proof {
        assert(played@.skip(start as int).take(n - start) =~= played@.skip(start as int));
        assert(tail@ == peg_tail(played@));
    }
    let pairs = combinations(&tail, 2);
    let ghost pair_part = combos(peg_tail(played@), 2).map_values(|t: Seq<Card>| PegEvent::Pair(t));
    let mut k: usize = 0;
    while k < pairs.len()
        invariant
            k <= pairs@.len(),
            views_of(pairs@) == combos(peg_tail(played@), 2),
            pair_part == combos(peg_tail(played@), 2).map_values(
                |t: Seq<Card>| PegEvent::Pair(t),
            ),
            peg_views(scorings@) =~= count_part + pair_part.take(k as int),
        decreases pairs@.len() - k,
    {
        let pair = pairs[k].clone();
        proof {
            assert(pair@ == views_of(pairs@)[k as int]);
        }
        let ghost prev = scorings@;
        scorings.push(PeggingScorings::Pair(pair));
        proof {
            let whole = count_part + pair_part.take(k + 1);
            assert(pair_part.len() == pairs@.len());
            assert(peg_views(prev).len() == prev.len());
            assert(peg_views(prev) == count_part + pair_part.take(k as int));
            assert(prev.len() == count_part.len() + k);
            assert forall|m: int| 0 <= m < scorings@.len() implies #[trigger] peg_views(
                scorings@,
            )[m] == whole[m] by {
                assert(peg_views(scorings@)[m] == scorings@[m]@);
                if m < prev.len() {
                    assert(scorings@[m] == prev[m]);
                    assert(peg_views(prev)[m] == prev[m]@);
                    assert((count_part + pair_part.take(k as int))[m] == whole[m]);
                } else {
                    assert(m == count_part.len() + k);
                    assert(whole[m] == pair_part.take(k + 1)[k as int]);
                    assert(whole[m] == pair_part[k as int]);
                    assert(pair_part[k as int] == PegEvent::Pair(combos(peg_tail(played@), 2)[k as int]));
                    assert(scorings@[m] == PeggingScorings::Pair(pair));
                    assert(pair@ == combos(peg_tail(played@), 2)[k as int]);
                }
            }
            assert(peg_views(scorings@) =~= whole);
        }
        k += 1;
    }
    proof {
        assert(pair_part.take(pair_part.len() as int) =~= pair_part);
    }

    // The longest trailing run, from the longest candidate down.
    let cap: usize = if n < 7 {
        n
    } else {
        7
    };
    let mut best: usize = 0;
    let mut l: usize = cap;
    while l >= 3
        invariant_except_break
            best == 0,
            longest_tail_run(played@, cap as nat) == longest_tail_run(played@, l as nat),
        invariant
            l <= cap,
            cap <= n,
            cap <= 7,
            n == played@.len(),
        ensures
            n == played@.len(),
            cap <= n,
            cap <= 7,
            best == longest_tail_run(played@, cap as nat),
        decreases l,
    {
        if trailing_run_check(&played, n - l) {
            best = l;
            proof {
                assert(longest_tail_run(played@, l as nat) == l);
            }
            break ;
        }
        proof {
            assert(longest_tail_run(played@, l as nat) == longest_tail_run(
                played@,
                (l - 1) as nat,
            ));
        }
        l -= 1;
    }
    let ghost run_len = longest_tail_run(played@, cap as nat);
    let ghost before_run = scorings@;
    if best >= 3 {
        let event = if best == 3 {
            PeggingScorings::RunOfThree
        } else if best == 4 {
            PeggingScorings::RunOfFour
        } else if best == 5 {
            PeggingScorings::RunOfFive
        } else if best == 6 {
            PeggingScorings::RunOfSix
        } else {
            PeggingScorings::RunOfSeven
        };
        proof {
            assert(longest_tail_run(played@, cap as nat) == best);
        }
        scorings.push(event);
        proof {
            assert(peg_views(scorings@) =~= peg_views(before_run).push(peg_run_event(
                best as nat,
            )));
        }
    }
    proof {
        let run_part = if run_len == 0 {
            Seq::<PegEvent>::empty()
        } else {
            seq![peg_run_event(run_len)]
        };
        assert(pair_part.len() == pairs@.len());
        assert(peg_views(before_run) == count_part + pair_part) by {
            assert(pair_part.take(pair_part.len() as int) =~= pair_part);
        }
        if best >= 3 {
            assert(run_len == best);
            assert(run_part =~= seq![peg_run_event(best as nat)]);
            assert(peg_views(scorings@) =~= count_part + pair_part + run_part);
        } else {
            assert(run_len == 0) by {
                lemma_longest_tail_run_range(played@, cap as nat);
            }
            assert(scorings@ == before_run);
            assert(count_part + pair_part + run_part =~= count_part + pair_part);
        }
        assert(peg_views(scorings@) =~= peg_score(played@));
    }
    scorings
}

/// A point-scoring event in hand or crib counting, carrying the cards
/// that earn it.
#[derive(Clone, Debug, PartialEq, Eq)]
pub enum HandScorings {
    Fifteen(Vec<Card>),
    Pair(Vec<Card>),
    RunOfThree(Vec<Card>),
    RunOfFour(Vec<Card>),
    RunOfFive(Vec<Card>),
    FourCardFlush(Vec<Card>),
    FiveCardFlush(Vec<Card>),
    Nobs(Card),
}

/// The mathematical value of a hand-counting event.
pub enum HandEvent {
    Fifteen(Seq<Card>),
    Pair(Seq<Card>),
    RunOfThree(Seq<Card>),
    RunOfFour(Seq<Card>),
    RunOfFive(Seq<Card>),
    FourCardFlush(Seq<Card>),
    FiveCardFlush(Seq<Card>),
    Nobs(Card),
}

impl View for HandScorings {
    type V = HandEvent;

    open spec fn view(&self) -> HandEvent {
        match self {
            HandScorings::Fifteen(v) => HandEvent::Fifteen(v@),
            HandScorings::Pair(v) => HandEvent::Pair(v@),
            HandScorings::RunOfThree(v) => HandEvent::RunOfThree(v@),
            HandScorings::RunOfFour(v) => HandEvent::RunOfFour(v@),
            HandScorings::RunOfFive(v) => HandEvent::RunOfFive(v@),
            HandScorings::FourCardFlush(v) => HandEvent::FourCardFlush(v@),
            HandScorings::FiveCardFlush(v) => HandEvent::FiveCardFlush(v@),
            HandScorings::Nobs(c) => HandEvent::Nobs(*c),
        }
    }
}

/// The views of a list of hand-counting events.
pub open spec fn hand_views(s: Seq<HandScorings>) -> Seq<HandEvent> {
    s.map_values(|e: HandScorings| e@)
}

/// The points a hand-counting event is worth.
pub open spec fn hand_value(e: HandEvent) -> int {
    match e {
        HandEvent::Fifteen(_) => 2,
        HandEvent::Pair(_) => 2,
        HandEvent::RunOfThree(_) => 3,
        HandEvent::RunOfFour(_) => 4,
        HandEvent::RunOfFive(_) => 5,
        HandEvent::FourCardFlush(_) => 4,
        HandEvent::FiveCardFlush(_) => 5,
        HandEvent::Nobs(_) => 1,
    }
}

impl HandScorings {
    /// The points this event is worth.
    pub fn value(&self) -> (v: u8)
        ensures
            v as int == hand_value(self@),
    {
        match self {
            HandScorings::Fifteen(_) => 2,
            HandScorings::Pair(_) => 2,
            HandScorings::RunOfThree(_) => 3,
            HandScorings::RunOfFour(_) => 4,
            HandScorings::RunOfFive(_) => 5,
            HandScorings::FourCardFlush(_) => 4,
            HandScorings::FiveCardFlush(_) => 5,
            HandScorings::Nobs(_) => 1,
        }
    }
}

/// One Fifteen event per r-card subset summing to fifteen pips.
pub open spec fn fifteen_events(all: Seq<Card>, r: nat) -> Seq<HandEvent> {
    combos(all, r).filter(|t: Seq<Card>| pip_sum(t) == 15).map_values(
        |t: Seq<Card>| HandEvent::Fifteen(t),
    )
}

/// All Fifteen events, over subset sizes two to five.
pub open spec fn hand_fifteens(all: Seq<Card>) -> Seq<HandEvent> {
    fifteen_events(all, 2) + fifteen_events(all, 3) + fifteen_events(all, 4) + fifteen_events(
        all,
        5,
    )
}

/// A two-card subset whose cards share a rank.
pub open spec fn same_rank_pair(t: Seq<Card>) -> bool {
    t.len() == 2 && t[0].rank == t[1].rank
}

/// One Pair event per two-card subset of matching rank.
pub open spec fn hand_pairs(all: Seq<Card>) -> Seq<HandEvent> {
    combos(all, 2).filter(|t: Seq<Card>| same_rank_pair(t)).map_values(
        |t: Seq<Card>| HandEvent::Pair(t),
    )
}

/// The run event of length `l` over the given cards.
pub open spec fn hand_run_event(l: nat, t: Seq<Card>) -> HandEvent {
    if l == 3 {
        HandEvent::RunOfThree(t)
    } else if l == 4 {
        HandEvent::RunOfFour(t)
    } else {
        HandEvent::RunOfFive(t)
    }
}

/// One run event per l-card subset that forms a run.
pub open spec fn run_events_at(all: Seq<Card>, l: nat) -> Seq<HandEvent> {
    combos(all, l).filter(|t: Seq<Card>| is_run(t)).map_values(
        |t: Seq<Card>| hand_run_event(l, t),
    )
}

/// The run events of a hand: only the largest subset size from five
/// down to three at which any run exists is reported, and every
/// qualifying subset of that size counts.
pub open spec fn hand_runs(all: Seq<Card>) -> Seq<HandEvent> {
    if run_events_at(all, 5).len() > 0 {
        run_events_at(all, 5)
    } else if run_events_at(all, 4).len() > 0 {
        run_events_at(all, 4)
    } else {
        run_events_at(all, 3)
    }
}

/// Every card shares the suit of the first.
pub open spec fn all_same_suit(s: Seq<Card>) -> bool {
    forall|i: int| 0 <= i < s.len() ==> (#[trigger] s[i]).suit == s[0].suit
}

/// The flush events: all five cards — the hand and the cut — of one
/// suit score a five-card flush; otherwise the four hand cards alone of
/// one suit score a four-card flush, except in the crib, where only the
/// five-card flush counts.
pub open spec fn flush_events(hand: Seq<Card>, up: Card, crib_rules: bool) -> Seq<HandEvent> {
    if hand.len() > 0 && all_same_suit(hand) && up.suit == hand[0].suit {
        seq![HandEvent::FiveCardFlush(hand.push(up))]
    } else if !crib_rules && hand.len() > 0 && all_same_suit(hand) {
        seq![HandEvent::FourCardFlush(hand)]
    } else {
        Seq::<HandEvent>::empty()
    }
}

/// The nobs event: the first jack in the hand whose suit matches the
/// cut card, if any.
pub open spec fn nobs_events(hand: Seq<Card>, up: Card) -> Seq<HandEvent>
    decreases hand.len(),
{
    if hand.len() == 0 {
        Seq::<HandEvent>::empty()
    } else if hand.first().rank == Rank::Jack && hand.first().suit == up.suit {
        seq![HandEvent::Nobs(hand.first())]
    } else {
        nobs_events(hand.drop_first(), up)
    }
}

/// The events a four-card hand and its cut card score: every fifteen,
/// every pair, the runs at the single largest qualifying size, the
/// flush, and nobs. With `crib_rules` the four-card flush is never
/// awarded.
pub open spec fn hand_score(hand: Seq<Card>, up: Card, crib_rules: bool) -> Seq<HandEvent> {
    hand_fifteens(hand.push(up)) + hand_pairs(hand.push(up)) + hand_runs(hand.push(up))
        + flush_events(hand, up, crib_rules) + nobs_events(hand, up)
}

/// A single-element sequence filters to itself or to nothing.
proof fn lemma_filter_singleton<A>(x: A, pred: spec_fn(A) -> bool)
    ensures
        seq![x].filter(pred) == if pred(x) {
            seq![x]
        } else {
            Seq::<A>::empty()
        },
{
    reveal_with_fuel(Seq::filter, 2);
    assert(seq![x].drop_last() =~= Seq::<A>::empty());
    assert(seq![x].last() == x);
    if pred(x) {
        assert(seq![x].filter(pred) =~= seq![x]);
    }
}

/// Taking one more element extends a filter by at most that element.
proof fn lemma_filter_take_step<A>(s: Seq<A>, i: int, pred: spec_fn(A) -> bool)
    requires
        0 <= i < s.len(),
    ensures
        s.take(i + 1).filter(pred) == s.take(i).filter(pred) + if pred(s[i]) {
            seq![s[i]]
        } else {
            Seq::<A>::empty()
        },
{
    broadcast use vstd::seq_lib::group_seq_properties;

    assert(s.take(i + 1) =~= s.take(i) + seq![s[i]]);
    Seq::filter_distributes_over_add(s.take(i), seq![s[i]], pred);
    lemma_filter_singleton(s[i], pred);
    if !pred(s[i]) {
        assert(s.take(i).filter(pred) + Seq::<A>::empty() =~= s.take(i).filter(pred));
    }
}

/// Append to `out` one Fifteen event per r-card subset of `all` that
/// sums to fifteen.
fn push_fifteens(all: &Vec<Card>, r: usize, out: &mut Vec<HandScorings>)
    requires
        r <= 5,
    ensures
        hand_views(final(out)@) == hand_views(old(out)@) + fifteen_events(all@, r as nat),
{
    let ghost pred = |t: Seq<Card>| pip_sum(t) == 15;
    let ghost base = old(out)@;
    let subs = combinations(all, r);
    proof {
        crate::combinatorics::lemma_combos_sound(all@, r as nat);
    }
    let mut i: usize = 0;
    while i < subs.len()
        invariant
            i <= subs@.len(),
            views_of(subs@) == combos(all@, r as nat),
            r <= 5,
            pred == (|t: Seq<Card>| pip_sum(t) == 15),
            forall|k: int|
                0 <= k < combos(all@, r as nat).len() ==> (#[trigger] combos(all@, r as nat)[k]).len()
                    == r as nat,
            hand_views(out@) =~= hand_views(base) + combos(all@, r as nat).take(i as int).filter(
                pred,
            ).map_values(|t: Seq<Card>| HandEvent::Fifteen(t)),
        decreases subs@.len() - i,
    {
        let t = &subs[i];
        proof {
            assert(t@ == views_of(subs@)[i as int]);
            lemma_pip_sum_bounds(t@);
        }
        let total = total_of(t);
        let ghost prev = out@;
        let ghost fpart = combos(all@, r as nat).take(i as int).filter(pred).map_values(
            |u: Seq<Card>| HandEvent::Fifteen(u),
        );
        let ghost fpart1 = combos(all@, r as nat).take(i + 1).filter(pred).map_values(
            |u: Seq<Card>| HandEvent::Fifteen(u),
        );
        if total == 15 {
            out.push(HandScorings::Fifteen(t.clone()));
        }
        proof {
            lemma_filter_take_step(combos(all@, r as nat), i as int, pred);
            if pred(views_of(subs@)[i as int]) {
                assert(fpart1 =~= fpart.push(HandEvent::Fifteen(t@)));
                assert(hand_views(out@) =~= hand_views(prev).push(HandEvent::Fifteen(t@)));
                assert(hand_views(out@) =~= hand_views(base) + fpart1);
            } else {
                assert(fpart1 =~= fpart);
                assert(hand_views(out@) =~= hand_views(base) + fpart1);
            }
        }
        i += 1;
    }
    proof {
        assert(combos(all@, r as nat).take(combos(all@, r as nat).len() as int) =~= combos(
            all@,
            r as nat,
        ));
    }
}

/// Append to `out` one Pair event per two-card subset of `all` whose
/// cards share a rank.
fn push_pairs(all: &Vec<Card>, out: &mut Vec<HandScorings>)
    ensures
        hand_views(final(out)@) == hand_views(old(out)@) + hand_pairs(all@),
{
    let ghost pred = |t: Seq<Card>| same_rank_pair(t);
    let ghost base = old(out)@;
    let subs = combinations(all, 2);
    proof {
        crate::combinatorics::lemma_combos_sound(all@, 2);
    }
    let mut i: usize = 0;
    while i < subs.len()
        invariant
            i <= subs@.len(),
            views_of(subs@) == combos(all@, 2),
            pred == (|t: Seq<Card>| same_rank_pair(t)),
            forall|k: int|
                0 <= k < combos(all@, 2).len() ==> (#[trigger] combos(all@, 2)[k]).len() == 2,
            hand_views(out@) =~= hand_views(base) + combos(all@, 2).take(i as int).filter(
                pred,
            ).map_values(|t: Seq<Card>| HandEvent::Pair(t)),
        decreases subs@.len() - i,
    {
        let t = &subs[i];
        proof {
            assert(t@ == views_of(subs@)[i as int]);
        }
        let ghost prev = out@;
        let ghost fpart1 = combos(all@, 2).take(i + 1).filter(pred).map_values(
            |u: Seq<Card>| HandEvent::Pair(u),
        );
        if t[0].rank.ordinal() == t[1].rank.ordinal() {
            proof {
                assert(rank_ordinal(t@[0].rank) == rank_ordinal(t@[1].rank));
                assert(t@[0].rank == t@[1].rank);
            }
            out.push(HandScorings::Pair(t.clone()));
        }
        proof {
            lemma_filter_take_step(combos(all@, 2), i as int, pred);
            if pred(t@) {
                assert(hand_views(out@) =~= hand_views(prev).push(HandEvent::Pair(t@)));
                assert(hand_views(out@) =~= hand_views(base) + fpart1);
            } else {
                assert(hand_views(out@) =~= hand_views(base) + fpart1);
            }
        }
        i += 1;
    }
    proof {
        assert(combos(all@, 2).take(combos(all@, 2).len() as int) =~= combos(all@, 2));
    }
}

/// The l-card subsets of `all` that form runs.
fn find_runs(all: &Vec<Card>, l: usize) -> (found: Vec<Vec<Card>>)
    ensures
        views_of(found@) == combos(all@, l as nat).filter(|t: Seq<Card>| is_run(t)),
{
    let ghost pred = |t: Seq<Card>| is_run(t);
    let subs = combinations(all, l);
    let mut found: Vec<Vec<Card>> = Vec::new();
    let mut i: usize = 0;
    while i < subs.len()
        invariant
            i <= subs@.len(),
            views_of(subs@) == combos(all@, l as nat),
            pred == (|t: Seq<Card>| is_run(t)),
            views_of(found@) =~= combos(all@, l as nat).take(i as int).filter(pred),
        decreases subs@.len() - i,
    {
        let t = &subs[i];
        proof {
            assert(t@ == views_of(subs@)[i as int]);
        }
        let ghost prev = found@;
        if trailing_run_check(t, 0) {
            proof {
                assert(t@.skip(0) =~= t@);
            }
            found.push(t.clone());
        }
        proof {
            assert(t@.skip(0) =~= t@);
            lemma_filter_take_step(combos(all@, l as nat), i as int, pred);
            if pred(t@) {
                assert(views_of(found@) =~= views_of(prev).push(t@));
            }
            assert(views_of(found@) =~= combos(all@, l as nat).take(i + 1).filter(pred));
        }
        i += 1;
    }
    proof {
        assert(combos(all@, l as nat).take(combos(all@, l as nat).len() as int) =~= combos(
            all@,
            l as nat,
        ));
    }
    found
}

/// Append the run events of length `l` for the given run subsets.
fn push_runs(found: &Vec<Vec<Card>>, l: usize, out: &mut Vec<HandScorings>)
    requires
        3 <= l <= 5,
    ensures
        hand_views(final(out)@) == hand_views(old(out)@) + views_of(found@).map_values(
            |t: Seq<Card>| hand_run_event(l as nat, t),
        ),
{
    let ghost base = old(out)@;
    let ghost mapped = views_of(found@).map_values(|t: Seq<Card>| hand_run_event(l as nat, t));
    let mut i: usize = 0;
    while i < found.len()
        invariant
            i <= found@.len(),
            mapped == views_of(found@).map_values(|t: Seq<Card>| hand_run_event(l as nat, t)),
            3 <= l <= 5,
            hand_views(out@) =~= hand_views(base) + mapped.take(i as int),
        decreases found@.len() - i,
    {
        let t = found[i].clone();
        proof {
            assert(t@ == views_of(found@)[i as int]);
        }
        let event = if l == 3 {
            HandScorings::RunOfThree(t)
        } else if l == 4 {
            HandScorings::RunOfFour(t)
        } else {
            HandScorings::RunOfFive(t)
        };
        let ghost prev = out@;
        proof {
            assert(event@ == hand_run_event(l as nat, views_of(found@)[i as int]));
        }
        out.push(event);
        proof {
            assert(mapped.take(i + 1) =~= mapped.take(i as int).push(mapped[i as int]));
            assert(hand_views(out@) =~= hand_views(prev).push(mapped[i as int]));
            assert(hand_views(out@) =~= hand_views(base) + mapped.take(i + 1));
        }
        i += 1;
    }
    proof {
        assert(mapped.take(mapped.len() as int) =~= mapped);
    }
}

/// Every card of `cards` shares the suit of the first.
fn same_suit(cards: &Vec<Card>) -> (r: bool)
    ensures
        r == all_same_suit(cards@),
{
    if cards.len() == 0 {
        return true;
    }
    let first = cards[0];
    let mut i: usize = 0;
    while i < cards.len()
        invariant
            i <= cards@.len(),
            cards@.len() > 0,
            first == cards@[0],
            forall|k: int| 0 <= k < i ==> (#[trigger] cards@[k]).suit == cards@[0].suit,
        decreases cards@.len() - i,
    {
        if cards[i].suit.ordinal() != first.suit.ordinal() {
            proof {
                assert(cards@[i as int].suit != cards@[0].suit);
            }
            return false;
        }
        proof {
            assert(cards@[i as int].suit == cards@[0].suit);
        }
        i += 1;
    }
    true
}

/// The counting engine shared by hand and crib: fifteens, pairs, the
/// longest runs, the flush, and nobs.
fn score_cards(hand: &Vec<Card>, up_card: Card, crib_rules: bool) -> (scorings: Vec<HandScorings>)
    requires
        hand@.len() == 4,
    ensures
        hand_views(scorings@) == hand_score(hand@, up_card, crib_rules),
{
    let mut all = hand.clone();
    all.push(up_card);
    proof {
        assert(all@ == hand@.push(up_card));
    }
    let ghost a = all@;
    let mut scorings: Vec<HandScorings> = Vec::new();
    proof {
        assert(hand_views(scorings@) =~= Seq::<HandEvent>::empty());
        assert(hand_views(scorings@) + fifteen_events(a, 2) =~= fifteen_events(a, 2));
    }

    push_fifteens(&all, 2, &mut scorings);
    let ghost s2 = hand_views(scorings@);
    push_fifteens(&all, 3, &mut scorings);
    push_fifteens(&all, 4, &mut scorings);
    push_fifteens(&all, 5, &mut scorings);
    proof {
        assert(hand_views(scorings@) =~= hand_fifteens(a));
    }
    push_pairs(&all, &mut scorings);
    proof {
        assert(hand_views(scorings@) =~= hand_fifteens(a) + hand_pairs(a));
    }

    let runs5 = find_runs(&all, 5);
    let runs4 = find_runs(&all, 4);
    let runs3 = find_runs(&all, 3);
    if runs5.len() > 0 {
        push_runs(&runs5, 5, &mut scorings);
        proof {
            assert(views_of(runs5@).map_values(|t: Seq<Card>| hand_run_event(5, t))
                == run_events_at(a, 5));
            assert(run_events_at(a, 5).len() > 0);
        }
    } else if runs4.len() > 0 {
        push_runs(&runs4, 4, &mut scorings);
        proof {
            assert(views_of(runs4@).map_values(|t: Seq<Card>| hand_run_event(4, t))
                == run_events_at(a, 4));
            assert(run_events_at(a, 5).len() == 0 && run_events_at(a, 4).len() > 0);
        }
    } else {
        push_runs(&runs3, 3, &mut scorings);
        proof {
            assert(views_of(runs3@).map_values(|t: Seq<Card>| hand_run_event(3, t))
                == run_events_at(a, 3));
            assert(run_events_at(a, 5).len() == 0 && run_events_at(a, 4).len() == 0);
        }
    }
    proof {
        assert(hand_views(scorings@) =~= hand_fifteens(a) + hand_pairs(a) + hand_runs(a));
    }

    let ghost before_flush = hand_views(scorings@);
    let is_flush = same_suit(hand);
    if is_flush {
        let first_suit = hand[0];
        if up_card.suit.ordinal() == first_suit.suit.ordinal() {
            proof {
                assert(up_card.suit == hand@[0].suit);
            }
            scorings.push(HandScorings::FiveCardFlush(all.clone()));
        } else if !crib_rules {
            proof {
                assert(up_card.suit != hand@[0].suit);
            }
            scorings.push(HandScorings::FourCardFlush(hand.clone()));
        } else {
            proof {
                assert(up_card.suit != hand@[0].suit);
            }
        }
    }
    proof {
        assert(hand_views(scorings@) =~= before_flush + flush_events(hand@, up_card, crib_rules));
    }

    let ghost before_nobs = hand_views(scorings@);
    let mut i: usize = 0;
    let mut found_nobs = false;
    proof {
        assert(hand@.skip(0) =~= hand@);
    }
    while i < hand.len()
        invariant_except_break
            !found_nobs,
            nobs_events(hand@, up_card) == nobs_events(hand@.skip(i as int), up_card),
        invariant
            i <= hand@.len(),
            found_nobs ==> nobs_events(hand@, up_card) =~= seq![
                HandEvent::Nobs(hand@[i as int]),
            ] && i < hand@.len(),
        ensures
            (found_nobs && i < hand@.len() && nobs_events(hand@, up_card) =~= seq![
                HandEvent::Nobs(hand@[i as int]),
            ]) || (!found_nobs && nobs_events(hand@, up_card) =~= Seq::<HandEvent>::empty()),
        decreases hand@.len() - i,
    {
        let c = hand[i];
        proof {
            assert(hand@.skip(i as int).first() == hand@[i as int]);
            assert(hand@.skip(i as int).drop_first() =~= hand@.skip(i + 1));
        }
        if c.rank.ordinal() == 11 && c.suit.ordinal() == up_card.suit.ordinal() {
            proof {
                assert(c.rank == Rank::Jack);
                assert(c.suit == up_card.suit);
            }
            found_nobs = true;
            break ;
        }
        proof {
            assert(c.rank == Rank::Jack ==> c.suit != up_card.suit);
            assert(!(hand@.skip(i as int).first().rank == Rank::Jack && hand@.skip(
                i as int,
            ).first().suit == up_card.suit));
        }
        i += 1;
    }
    if found_nobs {
        scorings.push(HandScorings::Nobs(hand[i]));
    }
    proof {
        assert(hand@.skip(hand@.len() as int) =~= Seq::<Card>::empty());
        assert(hand_views(scorings@) =~= before_nobs + nobs_events(hand@, up_card));
        assert(hand_views(scorings@) =~= hand_score(hand@, up_card, crib_rules));
    }
    scorings
}

/// The point-scoring events for a four-card hand together with the cut
/// card: every fifteen among its subsets, every pair, all runs of the
/// single longest qualifying length, a five- or four-card flush, and
/// nobs for the jack matching the cut suit.
pub fn score_hand(hand: &Vec<Card>, up_card: Card) -> (scorings: Vec<HandScorings>)
    requires
        hand@.len() == 4,
    ensures
        hand_views(scorings@) == hand_score(hand@, up_card, false),
{
    score_cards(hand, up_card, false)
}

/// The point-scoring events for the crib: as `score_hand`, except that
/// a four-card flush is never awarded — a crib flush takes all five
/// cards.
pub fn score_crib(hand: &Vec<Card>, up_card: Card) -> (scorings: Vec<HandScorings>)
    requires
        hand@.len() == 4,
    ensures
        hand_views(scorings@) == hand_score(hand@, up_card, true),
{
    score_cards(hand, up_card, true)
}

/// The total points of a list of pegging events.
pub open spec fn peg_total_value(s: Seq<PegEvent>) -> int
    decreases s.len(),
{
    if s.len() == 0 {
        0
    } else {
        peg_total_value(s.drop_last()) + peg_value(s.last())
    }
}

/// The total points of a list of hand-counting events.
pub open spec fn hand_total_value(s: Seq<HandEvent>) -> int
    decreases s.len(),
{
    if s.len() == 0 {
        0
    } else {
        hand_total_value(s.drop_last()) + hand_value(s.last())
    }
}

/// Pegging totals add over concatenation.
pub proof fn lemma_peg_total_concat(a: Seq<PegEvent>, b: Seq<PegEvent>)
    ensures
        peg_total_value(a + b) == peg_total_value(a) + peg_total_value(b),
    decreases b.len(),
{
    if b.len() == 0 {
        assert(a + b =~= a);
    } else {
        lemma_peg_total_concat(a, b.drop_last());
        assert((a + b).drop_last() =~= a + b.drop_last());
        assert((a + b).last() == b.last());
    }
}

/// Hand totals add over concatenation.
pub proof fn lemma_hand_total_concat(a: Seq<HandEvent>, b: Seq<HandEvent>)
    ensures
        hand_total_value(a + b) == hand_total_value(a) + hand_total_value(b),
    decreases b.len(),
{
    if b.len() == 0 {
        assert(a + b =~= a);
    } else {
        lemma_hand_total_concat(a, b.drop_last());
        assert((a + b).drop_last() =~= a + b.drop_last());
        assert((a + b).last() == b.last());
    }
}

/// Every pegging event is worth between one and seven points.
pub proof fn lemma_peg_total_bounds(s: Seq<PegEvent>)
    ensures
        s.len() <= peg_total_value(s) <= 7 * s.len(),
    decreases s.len(),
{
    if s.len() > 0 {
        lemma_peg_total_bounds(s.drop_last());
    }
}

/// Every hand-counting event is worth between one and five points.
pub proof fn lemma_hand_total_bounds(s: Seq<HandEvent>)
    ensures
        s.len() <= hand_total_value(s) <= 5 * s.len(),
    decreases s.len(),
{
    if s.len() > 0 {
        lemma_hand_total_bounds(s.drop_last());
    }
}

/// The total points of a list of pegging events.
pub fn pegging_points(scorings: &Vec<PeggingScorings>) -> (v: u16)
    requires
        peg_total_value(peg_views(scorings@)) <= 65535,
    ensures
        v as int == peg_total_value(peg_views(scorings@)),
{
    let ghost whole = peg_views(scorings@);
    let mut v: u16 = 0;
    let mut i: usize = 0;
    while i < scorings.len()
        invariant
            i <= scorings@.len(),
            whole == peg_views(scorings@),
            peg_total_value(whole) <= 65535,
            v as int == peg_total_value(whole.take(i as int)),
        decreases scorings@.len() - i,
    {
        proof {
            assert(whole =~= whole.take(i + 1) + whole.skip(i + 1));
            lemma_peg_total_concat(whole.take(i + 1), whole.skip(i + 1));
            lemma_peg_total_bounds(whole.take(i + 1));
            lemma_peg_total_bounds(whole.skip(i + 1));
            assert(whole.take(i + 1).drop_last() =~= whole.take(i as int));
            assert(whole.take(i + 1).last() == whole[i as int]);
            assert(whole[i as int] == scorings@[i as int]@);
        }
        v = v + scorings[i].value() as u16;
        i += 1;
    }
    proof {
        assert(whole.take(whole.len() as int) =~= whole);
    }
    v
}

/// The total points of a list of hand-counting events.
pub fn hand_points(scorings: &Vec<HandScorings>) -> (v: u16)
    requires
        hand_total_value(hand_views(scorings@)) <= 65535,
    ensures
        v as int == hand_total_value(hand_views(scorings@)),
{
    let ghost whole = hand_views(scorings@);
    let mut v: u16 = 0;
    let mut i: usize = 0;
    while i < scorings.len()
        invariant
            i <= scorings@.len(),
            whole == hand_views(scorings@),
            hand_total_value(whole) <= 65535,
            v as int == hand_total_value(whole.take(i as int)),
        decreases scorings@.len() - i,
    {
        proof {
            assert(whole =~= whole.take(i + 1) + whole.skip(i + 1));
            lemma_hand_total_concat(whole.take(i + 1), whole.skip(i + 1));
            lemma_hand_total_bounds(whole.take(i + 1));
            lemma_hand_total_bounds(whole.skip(i + 1));
            assert(whole.take(i + 1).drop_last() =~= whole.take(i as int));
            assert(whole.take(i + 1).last() == whole[i as int]);
            assert(whole[i as int] == scorings@[i as int]@);
        }
        v = v + scorings[i].value() as u16;
        i += 1;
    }
    proof {
        assert(whole.take(whole.len() as int) =~= whole);
    }
    v
}

/// There are n one-element subsets of an n-element set.
pub proof fn lemma_binom_one(n: nat)
    ensures
        binom(n, 1) == n,
    decreases n,
{
    if n > 0 {
        lemma_binom_one((n - 1) as nat);
        assert(binom((n - 1) as nat, 0) == 1);
    }
}

/// Twice the number of two-element subsets of an n-element set is
/// n(n-1).
pub proof fn lemma_binom_two(n: nat)
    ensures
        2 * binom(n, 2) == n * (n - 1),
    decreases n,
{
    if n > 0 {
        lemma_binom_two((n - 1) as nat);
        lemma_binom_one((n - 1) as nat);
        assert(binom(n, 2) == binom((n - 1) as nat, 1) + binom((n - 1) as nat, 2));
        assert(binom((n - 1) as nat, 1) == n - 1);
        assert(2 * binom((n - 1) as nat, 2) == (n - 1) * (n - 2));
        assert(2 * (n - 1) + (n - 1) * (n - 2) == n * (n - 1)) by (nonlinear_arith);
    } else {
        assert(binom(0, 2) == 0);
    }
}

/// The matching tail is part of the played sequence.
pub proof fn lemma_tail_match_le(played: Seq<Card>)
    ensures
        tail_match_len(played) <= played.len(),
    decreases played.len(),
{
    if played.len() > 0 {
        lemma_tail_match_le(played.drop_last());
    }
}

/// A single pegging check awards a bounded number of points.
pub proof fn lemma_peg_score_points(played: Seq<Card>)
    requires
        pip_sum(played) <= 31,
    ensures
        0 <= peg_total_value(peg_score(played)) <= 4000,
{
    let count_part = if pip_sum(played) == 15 {
        seq![PegEvent::Fifteen]
    } else if pip_sum(played) == 31 {
        seq![PegEvent::ThirtyOne]
    } else {
        Seq::<PegEvent>::empty()
    };
    let pair_part = combos(peg_tail(played), 2).map_values(|t: Seq<Card>| PegEvent::Pair(t));
    let cap: nat = if played.len() < 7 {
        played.len()
    } else {
        7
    };
    let l = longest_tail_run(played, cap);
    let run_part = if l == 0 {
        Seq::<PegEvent>::empty()
    } else {
        seq![peg_run_event(l)]
    };
    lemma_pip_sum_bounds(played);
    lemma_tail_match_le(played);
    let t = peg_tail(played).len();
    assert(t <= 31);
    crate::combinatorics::lemma_combos_sound(peg_tail(played), 2);
    lemma_binom_two(t as nat);
    assert(t * (t - 1) <= 930) by (nonlinear_arith)
        requires
            0 <= t <= 31,
    ;
    assert(pair_part.len() <= 465);
    lemma_peg_total_concat(count_part + pair_part, run_part);
    lemma_peg_total_concat(count_part, pair_part);
    lemma_peg_total_bounds(count_part);
    lemma_peg_total_bounds(pair_part);
    lemma_peg_total_bounds(run_part);
}

/// The small subset counts of a five-card group.
proof fn lemma_binom_five()
    ensures
        binom(5, 2) == 10,
        binom(5, 3) == 10,
        binom(5, 4) == 5,
        binom(5, 5) == 1,
{
    assert(binom(0, 0) == 1);
    assert(binom(1, 0) == 1);
    assert(binom(2, 0) == 1);
    assert(binom(3, 0) == 1);
    assert(binom(4, 0) == 1);
    assert(binom(0, 1) == 0);
    assert(binom(0, 2) == 0);
    assert(binom(0, 3) == 0);
    assert(binom(0, 4) == 0);
    assert(binom(0, 5) == 0);
    assert(binom(1, 1) == 1);
    assert(binom(1, 2) == 0);
    assert(binom(1, 3) == 0);
    assert(binom(1, 4) == 0);
    assert(binom(1, 5) == 0);
    assert(binom(2, 1) == 2);
    assert(binom(2, 2) == 1);
    assert(binom(2, 3) == 0);
    assert(binom(2, 4) == 0);
    assert(binom(2, 5) == 0);
    assert(binom(3, 1) == 3);
    assert(binom(3, 2) == 3);
    assert(binom(3, 3) == 1);
    assert(binom(3, 4) == 0);
    assert(binom(3, 5) == 0);
    assert(binom(4, 1) == 4);
    assert(binom(4, 2) == 6);
    assert(binom(4, 3) == 4);
    assert(binom(4, 4) == 1);
    assert(binom(4, 5) == 0);
    assert(binom(5, 2) == 10);
    assert(binom(5, 3) == 10);
    assert(binom(5, 4) == 5);
    assert(binom(5, 5) == 1);
}

/// At most one nobs event is ever reported.
proof fn lemma_nobs_len(hand: Seq<Card>, up: Card)
    ensures
        nobs_events(hand, up).len() <= 1,
    decreases hand.len(),
{
    if hand.len() > 0 {
        lemma_nobs_len(hand.drop_first(), up);
    }
}

/// Counting one hand awards a bounded number of points.
pub proof fn lemma_hand_score_points(hand: Seq<Card>, up: Card, crib_rules: bool)
    requires
        hand.len() == 4,
    ensures
        0 <= hand_total_value(hand_score(hand, up, crib_rules)) <= 300,
{
    let a = hand.push(up);
    lemma_binom_five();
    crate::combinatorics::lemma_combos_sound(a, 2);
    crate::combinatorics::lemma_combos_sound(a, 3);
    crate::combinatorics::lemma_combos_sound(a, 4);
    crate::combinatorics::lemma_combos_sound(a, 5);
    combos(a, 2).lemma_filter_len(|t: Seq<Card>| pip_sum(t) == 15);
    combos(a, 3).lemma_filter_len(|t: Seq<Card>| pip_sum(t) == 15);
    combos(a, 4).lemma_filter_len(|t: Seq<Card>| pip_sum(t) == 15);
    combos(a, 5).lemma_filter_len(|t: Seq<Card>| pip_sum(t) == 15);
    combos(a, 2).lemma_filter_len(|t: Seq<Card>| same_rank_pair(t));
    combos(a, 3).lemma_filter_len(|t: Seq<Card>| is_run(t));
    combos(a, 4).lemma_filter_len(|t: Seq<Card>| is_run(t));
    combos(a, 5).lemma_filter_len(|t: Seq<Card>| is_run(t));
    lemma_nobs_len(hand, up);
    assert(hand_fifteens(a).len() <= 26);
    assert(hand_pairs(a).len() <= 10);
    assert(hand_runs(a).len() <= 10);
    assert(flush_events(hand, up, crib_rules).len() <= 1);
    let p1 = hand_fifteens(a);
    let p2 = hand_pairs(a);
    let p3 = hand_runs(a);
    let p4 = flush_events(hand, up, crib_rules);
    let p5 = nobs_events(hand, up);
    lemma_hand_total_concat(p1 + p2 + p3 + p4, p5);
    lemma_hand_total_concat(p1 + p2 + p3, p4);
    lemma_hand_total_concat(p1 + p2, p3);
    lemma_hand_total_concat(p1, p2);
    lemma_hand_total_bounds(p1);
    lemma_hand_total_bounds(p2);
    lemma_hand_total_bounds(p3);
    lemma_hand_total_bounds(p4);
    lemma_hand_total_bounds(p5);
}

/// A pegging check never reports a fifteen and a thirty-one together:
/// the running total is one number.
pub proof fn lemma_fifteen_thirty_one_exclusive(played: Seq<Card>)
    ensures
        !(peg_score(played).contains(PegEvent::Fifteen) && peg_score(played).contains(
            PegEvent::ThirtyOne,
        )),
{
    let sc = peg_score(played);
    let count_part = if pip_sum(played) == 15 {
        seq![PegEvent::Fifteen]
    } else if pip_sum(played) == 31 {
        seq![PegEvent::ThirtyOne]
    } else {
        Seq::<PegEvent>::empty()
    };
    let pair_part = combos(peg_tail(played), 2).map_values(|t: Seq<Card>| PegEvent::Pair(t));
    let cap: nat = if played.len() < 7 {
        played.len()
    } else {
        7
    };
    let l = longest_tail_run(played, cap);
    let run_part = if l == 0 {
        Seq::<PegEvent>::empty()
    } else {
        seq![peg_run_event(l)]
    };
    assert(sc == count_part + pair_part + run_part);
    if sc.contains(PegEvent::Fifteen) && sc.contains(PegEvent::ThirtyOne) {
        let i = choose|i: int| 0 <= i < sc.len() && sc[i] == PegEvent::Fifteen;
        let j = choose|j: int| 0 <= j < sc.len() && sc[j] == PegEvent::ThirtyOne;
        assert(i < count_part.len()) by {
            if i >= count_part.len() + pair_part.len() {
                assert(sc[i] == peg_run_event(l));
            } else if i >= count_part.len() {
                assert(sc[i] == pair_part[i - count_part.len()]);
            }
        }
        assert(j < count_part.len()) by {
            if j >= count_part.len() + pair_part.len() {
                assert(sc[j] == peg_run_event(l));
            } else if j >= count_part.len() {
                assert(sc[j] == pair_part[j - count_part.len()]);
            }
        }
        assert(pip_sum(played) == 15 && pip_sum(played) == 31);
    }
}

/// Only the longest trailing run is reported: no longer suffix within
/// the cap forms a run.
pub proof fn lemma_longest_run_is_maximal(played: Seq<Card>, cap: nat)
    ensures
        forall|l: nat|
            longest_tail_run(played, cap) < l <= cap && 3 <= l && l <= played.len() ==> !is_run(
                #[trigger] played.skip(played.len() - l),
            ),
    decreases cap,
{
    if cap >= 3 {
        if cap <= played.len() && is_run(played.skip(played.len() - cap)) {
        } else {
            lemma_longest_run_is_maximal(played, (cap - 1) as nat);
            lemma_longest_tail_run_range(played, (cap - 1) as nat);
        }
    }
}

/// Whether a hand-counting event is a four-card flush.
pub open spec fn is_four_flush(e: HandEvent) -> bool {
    e is FourCardFlush
}

/// A sequence none of whose elements a filter rejects passes through
/// it unchanged.
proof fn lemma_filter_keeps_all<A>(s: Seq<A>, pred: spec_fn(A) -> bool)
    requires
        forall|k: int| 0 <= k < s.len() ==> pred(#[trigger] s[k]),
    ensures
        s.filter(pred) == s,
    decreases s.len(),
{
    reveal_with_fuel(Seq::filter, 2);
    if s.len() > 0 {
        lemma_filter_keeps_all(s.drop_last(), pred);
        assert(s.filter(pred) =~= s);
    } else {
        assert(s.filter(pred) =~= s);
    }
}

/// No fifteen, pair, or run event is a flush event.
#[verifier::spinoff_prover]
proof fn lemma_core_events_not_flush(a: Seq<Card>)
    ensures
        forall|k: int|
            0 <= k < hand_fifteens(a).len() ==> !is_four_flush(#[trigger] hand_fifteens(a)[k]),
        forall|k: int| 0 <= k < hand_pairs(a).len() ==> !is_four_flush(#[trigger] hand_pairs(a)[k]),
        forall|k: int| 0 <= k < hand_runs(a).len() ==> !is_four_flush(#[trigger] hand_runs(a)[k]),
{
    assert forall|k: int|
        0 <= k < hand_fifteens(a).len() implies !is_four_flush(#[trigger] hand_fifteens(a)[k]) by {
        let p1 = hand_fifteens(a);
        if k < fifteen_events(a, 2).len() + fifteen_events(a, 3).len() {
            if k < fifteen_events(a, 2).len() {
                assert(p1[k] == fifteen_events(a, 2)[k]);
            } else {
                assert(p1[k] == fifteen_events(a, 3)[k - fifteen_events(a, 2).len()]);
            }
        } else {
            let k2 = k - fifteen_events(a, 2).len() - fifteen_events(a, 3).len();
            if k2 < fifteen_events(a, 4).len() {
                assert(p1[k] == fifteen_events(a, 4)[k2]);
            } else {
                assert(p1[k] == fifteen_events(a, 5)[k2 - fifteen_events(a, 4).len()]);
            }
        }
    }
}

/// The crib counts exactly as the hand does with the four-card flush
/// events left out: a crib flush takes all five cards.
#[verifier::rlimit(100)]
#[verifier::spinoff_prover]
pub proof fn lemma_crib_is_hand_without_four_flush(hand: Seq<Card>, up: Card)
    ensures
        hand_score(hand, up, true) == hand_score(hand, up, false).filter(
            |e: HandEvent| !is_four_flush(e),
        ),
{
    let keep = |e: HandEvent| !is_four_flush(e);
    let a = hand.push(up);
    let p1 = hand_fifteens(a);
    let p2 = hand_pairs(a);
    let p3 = hand_runs(a);
    let front = p1 + p2 + p3;
    let nobs = nobs_events(hand, up);
    let hand_flush = flush_events(hand, up, false);
    let crib_flush = flush_events(hand, up, true);
    assert(hand_score(hand, up, false) =~= front + hand_flush + nobs);
    assert(hand_score(hand, up, true) =~= front + crib_flush + nobs);
    Seq::filter_distributes_over_add(front + hand_flush, nobs, keep);
    Seq::filter_distributes_over_add(front, hand_flush, keep);
    Seq::filter_distributes_over_add(p1 + p2, p3, keep);
    Seq::filter_distributes_over_add(p1, p2, keep);
    lemma_core_events_not_flush(a);
    lemma_filter_keeps_all(p1, keep);
    lemma_filter_keeps_all(p2, keep);
    lemma_filter_keeps_all(p3, keep);
    assert(nobs.filter(keep) == nobs) by {
        lemma_nobs_not_flush(hand, up);
        lemma_filter_keeps_all(nobs, keep);
    }
    assert(front.filter(keep) =~= front);
    assert(hand_flush.filter(keep) =~= crib_flush) by {
        reveal_with_fuel(Seq::filter, 2);
        if hand.len() > 0 && all_same_suit(hand) && up.suit == hand[0].suit {
            assert(hand_flush =~= seq![HandEvent::FiveCardFlush(hand.push(up))]);
            assert(hand_flush.drop_last() =~= Seq::<HandEvent>::empty());
        } else if hand.len() > 0 && all_same_suit(hand) {
            assert(hand_flush =~= seq![HandEvent::FourCardFlush(hand)]);
            assert(hand_flush.drop_last() =~= Seq::<HandEvent>::empty());
        } else {
            assert(hand_flush =~= Seq::<HandEvent>::empty());
        }
    }
    assert((front + hand_flush + nobs).filter(keep) =~= front + crib_flush + nobs);
}

/// No nobs event is a flush event.
proof fn lemma_nobs_not_flush(hand: Seq<Card>, up: Card)
    ensures
        forall|k: int|
            0 <= k < nobs_events(hand, up).len() ==> (#[trigger] nobs_events(hand, up)[k])
                matches HandEvent::Nobs(_),
    decreases hand.len(),
{
    if hand.len() > 0 {
        lemma_nobs_not_flush(hand.drop_first(), up);
    }
}

/// The single win check behind every point award: add the points, clamp
/// the score to exactly 121 the instant it would pass it, and report
/// whether the game is over. The other seat's score never moves.
pub fn award_points(
    scores: &mut crate::player::PerPlayer<u8>,
    p: crate::player::PlayerPosition,
    points: u16,
) -> (won: bool)
    ensures
        won == (old(scores).of(p) as int + points as int >= 121),
        final(scores).of(p) as int == if old(scores).of(p) as int + points as int >= 121 {
            121int
        } else {
            old(scores).of(p) as int + points as int
        },
        final(scores).of(crate::player::position_after(p)) == old(scores).of(
            crate::player::position_after(p),
        ),
{
    let current: u8 = *scores.get(p);
    let sum: u32 = current as u32 + points as u32;
    if sum >= 121 {
        scores.put(p, 121);
        true
    } else {
        scores.put(p, sum as u8);
        false
    }
}

} // verus!
