//! Player positions, the player capability consumed by the engine, and
//! a simple default strategy.

use vstd::prelude::*;
use crate::deck::{Card, card_le, rank_value};

verus! {

/// One of the two seats at the table.
#[derive(Clone, Copy, Debug, PartialEq, Eq, Hash, Structural)]
pub enum PlayerPosition {
    First,
    Second,
}

/// The seat after the given one, cyclically.
pub open spec fn position_after(p: PlayerPosition) -> PlayerPosition {
    match p {
        PlayerPosition::First => PlayerPosition::Second,
        PlayerPosition::Second => PlayerPosition::First,
    }
}

impl PlayerPosition {
    /// The other seat: turns and the deal advance by this alone.
    pub fn next(self) -> (r: PlayerPosition)
        ensures
            r == position_after(self),
    {
        match self {
            PlayerPosition::First => PlayerPosition::Second,
            PlayerPosition::Second => PlayerPosition::First,
        }
    }
}

/// One value of type `T` for each seat.
#[derive(Debug)]
pub struct PerPlayer<T> {
    pub first: T,
    pub second: T,
}

impl<T> PerPlayer<T> {
    /// The value held for the given seat.
    pub open spec fn of(&self, p: PlayerPosition) -> T {
        match p {
            PlayerPosition::First => self.first,
            PlayerPosition::Second => self.second,
        }
    }

    /// Both seats' values.
    pub fn new(first: T, second: T) -> (r: PerPlayer<T>)
        ensures
            r.first == first,
            r.second == second,
    {
        PerPlayer { first, second }
    }

    /// The value held for the given seat.
    pub fn get(&self, p: PlayerPosition) -> (r: &T)
        ensures
            *r == self.of(p),
    {
        match p {
            PlayerPosition::First => &self.first,
            PlayerPosition::Second => &self.second,
        }
    }

    /// Replace the value held for the given seat, leaving the other
    /// seat's value unchanged.
    pub fn put(&mut self, p: PlayerPosition, v: T)
        ensures
            final(self).of(p) == v,
            final(self).of(position_after(p)) == old(self).of(position_after(p)),
    {
        match p {
            PlayerPosition::First => {
                self.first = v;
            },
            PlayerPosition::Second => {
                self.second = v;
            },
        }
    }
}

/// The cards of `s` arranged in ascending card order.
pub open spec fn sorted_cards(s: Seq<Card>) -> Seq<Card> {
    s.sort_by(|a: Card, b: Card| card_le(a, b))
}

/// The card order is a total order.
pub proof fn lemma_card_le_total()
    ensures
        vstd::relations::total_ordering(|a: Card, b: Card| card_le(a, b)),
{
}

/// Sorting keeps the cards and arranges them in ascending card order.
pub proof fn lemma_sorted_cards(s: Seq<Card>)
    ensures
        sorted_cards(s).to_multiset() == s.to_multiset(),
        sorted_cards(s).len() == s.len(),
        vstd::relations::sorted_by(sorted_cards(s), |a: Card, b: Card| card_le(a, b)),
        forall|c: Card| s.contains(c) <==> sorted_cards(s).contains(c),
{
    broadcast use vstd::seq_lib::group_to_multiset_ensures;

    lemma_card_le_total();
    s.lemma_sort_by_ensures(|a: Card, b: Card| card_le(a, b));
    assert(sorted_cards(s).to_multiset().len() == sorted_cards(s).len());
    assert(s.to_multiset().len() == s.len());
    assert forall|c: Card| s.contains(c) <==> sorted_cards(s).contains(c) by {
        assert(s.contains(c) <==> s.to_multiset().count(c) > 0);
        assert(sorted_cards(s).contains(c) <==> sorted_cards(s).to_multiset().count(c) > 0);
    }
}

/// The cards of the given hand in ascending card order: by rank first,
/// ace low, then by suit in the canonical suit order.
pub fn sort_cards(cards: &Vec<Card>) -> (r: Vec<Card>)
    ensures
        r@ == sorted_cards(cards@),
{
    let ghost leq = |a: Card, b: Card| card_le(a, b);
    let mut r: Vec<Card> = Vec::new();
    proof {
        assert(r@ =~= cards@.take(0));
    }
    let mut i: usize = 0;
    while i < cards.len()
        invariant
            i <= cards@.len(),
            r@.to_multiset() == cards@.take(i as int).to_multiset(),
            vstd::relations::sorted_by(r@, leq),
            leq == (|a: Card, b: Card| card_le(a, b)),
        decreases cards@.len() - i,
    {
        broadcast use vstd::seq_lib::group_to_multiset_ensures;

        let c = cards[i];
        let mut j: usize = 0;
        while j < r.len()
            invariant
                j <= r@.len(),
                forall|k: int| 0 <= k < j ==> card_le(#[trigger] r@[k], c),
            ensures
                j <= r@.len(),
                forall|k: int| 0 <= k < j ==> card_le(#[trigger] r@[k], c),
                j < r@.len() ==> !card_le(r@[j as int], c),
            decreases r@.len() - j,
        {
            let rj = r[j];
            if !(rj.rank.ordinal() < c.rank.ordinal() || (rj.rank.ordinal() == c.rank.ordinal()
                && rj.suit.ordinal() <= c.suit.ordinal())) {
                break ;
            }
            j += 1;
        }
        proof {
            assert forall|k: int| j <= k < r@.len() implies card_le(c, #[trigger] r@[k]) by {
                assert(card_le(c, r@[j as int]));
                if k > j {
                    assert(leq(r@[j as int], r@[k]));
                }
            }
        }
        let ghost r_old = r@;
        r.insert(j, c);
        proof {
            assert(vstd::relations::sorted_by(r@, leq)) by {
                assert forall|p: int, q: int| 0 <= p < q < r@.len() implies leq(r@[p], r@[q]) by {
                    if p < j && q > j {
                        assert(r@[p] == r_old[p] && r@[q] == r_old[q - 1]);
                    } else if q == j {
                        assert(r@[p] == r_old[p]);
                    } else if p == j {
                        assert(r@[q] == r_old[q - 1]);
                    }
                }
            }
            assert(r@.to_multiset() == cards@.take(i + 1).to_multiset()) by {
                assert(cards@.take(i + 1).drop_last() =~= cards@.take(i as int));
                assert(cards@.take(i + 1) =~= cards@.take(i as int).push(c));
            }
        }
        i += 1;
    }
    proof {
        lemma_sorted_cards(cards@);
        assert(cards@.take(cards@.len() as int) =~= cards@);
        vstd::seq_lib::lemma_sorted_unique(r@, sorted_cards(cards@), leq);
    }
    r
}

/// Remove the first occurrence of `card` from `hand`.
pub fn remove_card(hand: &mut Vec<Card>, card: Card)
    requires
        old(hand)@.contains(card),
    ensures
        final(hand)@ == old(hand)@.remove_value(card),
        final(hand)@.len() == old(hand)@.len() - 1,
        final(hand)@.to_multiset() == old(hand)@.to_multiset().remove(card),
        old(hand)@.no_duplicates() ==> final(hand)@.no_duplicates() && !final(hand)@.contains(
            card,
        ),
{
    broadcast use vstd::seq_lib::group_to_multiset_ensures;

    let ghost orig = hand@;
    let mut i: usize = 0;
    while i < hand.len()
        invariant
            i <= hand@.len(),
            hand@ == orig,
            orig.contains(card),
            forall|k: int| 0 <= k < i ==> orig[k] != card,
        ensures
            i <= orig.len(),
            hand@ == orig,
            forall|k: int| 0 <= k < i ==> orig[k] != card,
            i < orig.len() ==> orig[i as int] == card,
        decreases hand@.len() - i,
    {
        if hand[i] == card {
            break ;
        }
        i += 1;
    }
    proof {
        assert(i < orig.len() && orig[i as int] == card) by {
            if i == orig.len() {
                let w = choose|w: int| 0 <= w < orig.len() && orig[w] == card;
                assert(orig[w] != card);
            }
        }
        orig.index_of_first_ensures(card);
        assert(orig.index_of_first(card) == Some(i as int)) by {
            let idx = orig.index_of_first(card).unwrap();
            assert(0 <= idx < orig.len() && orig[idx] == card);
            if idx < i as int {
                assert(orig[idx] != card);
            }
            if idx > i as int {
                assert(orig[i as int] != card);
            }
        }
    }
    hand.remove(i);
    proof {
        assert(hand@ == orig.remove_value(card));
        assert(hand@.to_multiset() =~= orig.to_multiset().remove(card));
        if orig.no_duplicates() {
            assert(hand@.no_duplicates()) by {
                assert forall|p: int, q: int|
                    0 <= p < q < hand@.len() implies hand@[p] != hand@[q] by {
                    let pp = if p < i as int {
                        p
                    } else {
                        p + 1
                    };
                    let qq = if q < i as int {
                        q
                    } else {
                        q + 1
                    };
                    assert(hand@[p] == orig[pp] && hand@[q] == orig[qq]);
                }
            }
            assert(orig.to_multiset().count(card) == 1) by {
                orig.lemma_multiset_has_no_duplicates();
            }
            assert(hand@.to_multiset().count(card) == 0);
        }
    }
}

/// A card with pip value `v` exists in `hand` such that `v` plus the
/// running total stays within thirty-one.
pub open spec fn can_play(hand: Seq<Card>, total: int) -> bool {
    exists|i: int| 0 <= i < hand.len() && rank_value(hand[i].rank) + total <= 31
}

/// The player capability the engine consults for its two decisions: the
/// crib discard and the card to lay during pegging. Any strategy — the
/// default heuristic, a human at a user interface, or a test stand-in —
/// implements this.
pub trait KnowsCribbage {
    /// Choose exactly two distinct cards of `hand` to discard into the
    /// crib.
    fn choose_crib(&mut self, hand: &Vec<Card>) -> (picks: Vec<Card>)
        requires
            hand@.len() >= 2,
            hand@.no_duplicates(),
        ensures
            picks@.len() == 2,
            picks@.no_duplicates(),
            forall|i: int| 0 <= i < picks@.len() ==> hand@.contains(#[trigger] picks@[i]),
    ;

    /// Choose one card of `hand` to lay when the running pegging total
    /// is `total`; the choice must keep the total within thirty-one.
    /// Called only when such a card exists.
    fn play(&mut self, hand: &Vec<Card>, total: u8) -> (c: Card)
        requires
            hand@.no_duplicates(),
            can_play(hand@, total as int),
        ensures
            hand@.contains(c),
            rank_value(c.rank) + total <= 31,
    ;
}

/// The default strategy: discard the two lowest cards, play the lowest
/// card, in the total card order.
pub struct SimplePlayer {}

impl KnowsCribbage for SimplePlayer {
    fn choose_crib(&mut self, hand: &Vec<Card>) -> (picks: Vec<Card>)
        ensures
            picks@ == sorted_cards(hand@).take(2),
    {
        let sorted = sort_cards(hand);
        proof {
            lemma_sorted_cards(hand@);
        }
        let mut picks: Vec<Card> = Vec::new();
        picks.push(sorted[0]);
        picks.push(sorted[1]);
        proof {
            broadcast use vstd::seq_lib::group_to_multiset_ensures;

            let ss = sorted_cards(hand@);
            assert(ss.len() == hand@.len());
            assert(ss.contains(ss[0]) && ss.contains(ss[1]));
            assert(ss[0] != ss[1]) by {
                hand@.lemma_multiset_has_no_duplicates();
                assert(forall|x: Card| ss.to_multiset().contains(x)
                    ==> ss.to_multiset().count(x) == 1);
                ss.lemma_multiset_has_no_duplicates_conv();
            }
            assert(picks@ =~= seq![ss[0], ss[1]]);
            assert(picks@ =~= ss.take(2));
        }
        picks
    }

    fn play(&mut self, hand: &Vec<Card>, total: u8) -> (c: Card)
        ensures
            c == sorted_cards(hand@)[0],
    {
        let sorted = sort_cards(hand);
        proof {
            lemma_sorted_cards(hand@);
        }
        let c = sorted[0];
        proof {
            let ss = sorted_cards(hand@);
            let leq = |a: Card, b: Card| card_le(a, b);
            let i = choose|i: int| 0 <= i < hand@.len() && rank_value(hand@[i].rank) + total <= 31;
            let w = hand@[i];
            assert(ss.contains(w)) by {
                assert(hand@.contains(w));
            }
            let k = choose|k: int| 0 <= k < ss.len() && ss[k] == w;
            assert(leq(ss[0], ss[k]) || k == 0);
            assert(card_le(c, w));
            assert(rank_value(c.rank) <= rank_value(w.rank));
            assert(hand@.contains(c));
        }
        c
    }
}

} // verus!
