//! The card model: ranks, suits, cards, and the 52-card deck with its
//! random and stacked shuffle behaviours.

use vstd::prelude::*;
use vstd::multiset::Multiset;
use vstd::string::StrSliceExecFns;
use rand::seq::SliceRandom;

verus! {

/// The thirteen ranks, ace low.
#[derive(Clone, Copy, Debug, PartialEq, Eq, Hash, Structural)]
pub enum Rank {
    Ace,
    Two,
    Three,
    Four,
    Five,
    Six,
    Seven,
    Eight,
    Nine,
    Ten,
    Jack,
    Queen,
    King,
}

/// The four suits, in the canonical enumeration order.
#[derive(Clone, Copy, Debug, PartialEq, Eq, Hash, Structural)]
pub enum Suit {
    Spades,
    Hearts,
    Clubs,
    Diamonds,
}

/// A playing card: an immutable rank and suit pair.
#[derive(Clone, Copy, Debug, PartialEq, Eq, Hash, Structural)]
pub struct Card {
    pub rank: Rank,
    pub suit: Suit,
}

/// Position of a rank in the ace-low order, from 1 (ace) to 13 (king).
pub open spec fn rank_ordinal(r: Rank) -> int {
    match r {
        Rank::Ace => 1,
        Rank::Two => 2,
        Rank::Three => 3,
        Rank::Four => 4,
        Rank::Five => 5,
        Rank::Six => 6,
        Rank::Seven => 7,
        Rank::Eight => 8,
        Rank::Nine => 9,
        Rank::Ten => 10,
        Rank::Jack => 11,
        Rank::Queen => 12,
        Rank::King => 13,
    }
}

/// Pip value of a rank for fifteen and thirty-one sums: the ordinal,
/// with every face card counting ten.
pub open spec fn rank_value(r: Rank) -> int {
    if rank_ordinal(r) <= 10 {
        rank_ordinal(r)
    } else {
        10
    }
}

/// Position of a suit in the canonical enumeration order, from 1 to 4.
pub open spec fn suit_ordinal(s: Suit) -> int {
    match s {
        Suit::Spades => 1,
        Suit::Hearts => 2,
        Suit::Clubs => 3,
        Suit::Diamonds => 4,
    }
}

/// The total order on cards: by rank first, then by suit. Used only to
/// make dealer-cut comparisons and default discard choices deterministic.
pub open spec fn card_le(a: Card, b: Card) -> bool {
    rank_ordinal(a.rank) < rank_ordinal(b.rank) || (rank_ordinal(a.rank) == rank_ordinal(b.rank)
        && suit_ordinal(a.suit) <= suit_ordinal(b.suit))
}

/// The rank denoted by a short textual rank character, if any.
pub open spec fn rank_of_char(c: char) -> Option<Rank> {
    if c == 'a' || c == 'A' {
        Some(Rank::Ace)
    } else if c == '2' {
        Some(Rank::Two)
    } else if c == '3' {
        Some(Rank::Three)
    } else if c == '4' {
        Some(Rank::Four)
    } else if c == '5' {
        Some(Rank::Five)
    } else if c == '6' {
        Some(Rank::Six)
    } else if c == '7' {
        Some(Rank::Seven)
    } else if c == '8' {
        Some(Rank::Eight)
    } else if c == '9' {
        Some(Rank::Nine)
    } else if c == 't' || c == 'T' {
        Some(Rank::Ten)
    } else if c == 'j' || c == 'J' {
        Some(Rank::Jack)
    } else if c == 'q' || c == 'Q' {
        Some(Rank::Queen)
    } else if c == 'k' || c == 'K' {
        Some(Rank::King)
    } else {
        None
    }
}

/// The suit denoted by a short textual suit character, if any.
pub open spec fn suit_of_char(c: char) -> Option<Suit> {
    if c == 's' || c == 'S' {
        Some(Suit::Spades)
    } else if c == 'h' || c == 'H' {
        Some(Suit::Hearts)
    } else if c == 'c' || c == 'C' {
        Some(Suit::Clubs)
    } else if c == 'd' || c == 'D' {
        Some(Suit::Diamonds)
    } else {
        None
    }
}

/// All thirteen ranks in the canonical order.
pub open spec fn all_ranks() -> Seq<Rank> {
    seq![
        Rank::Ace,
        Rank::Two,
        Rank::Three,
        Rank::Four,
        Rank::Five,
        Rank::Six,
        Rank::Seven,
        Rank::Eight,
        Rank::Nine,
        Rank::Ten,
        Rank::Jack,
        Rank::Queen,
        Rank::King,
    ]
}

/// All four suits in the canonical order.
pub open spec fn all_suits() -> Seq<Suit> {
    seq![Suit::Spades, Suit::Hearts, Suit::Clubs, Suit::Diamonds]
}

/// The full 52-card deck in the canonical order: the thirteen ranks of
/// each suit, suit blocks in the canonical suit order.
pub open spec fn all_cards() -> Seq<Card> {
    Seq::new(52, |i: int| Card { rank: all_ranks()[i % 13], suit: all_suits()[i / 13] })
}

impl Rank {
    /// All ranks, in the canonical order.
    pub fn iter() -> (r: Vec<Rank>)
        ensures
            r@ == all_ranks(),
    {
        let r: Vec<Rank> = vec![
            Rank::Ace,
            Rank::Two,
            Rank::Three,
            Rank::Four,
            Rank::Five,
            Rank::Six,
            Rank::Seven,
            Rank::Eight,
            Rank::Nine,
            Rank::Ten,
            Rank::Jack,
            Rank::Queen,
            Rank::King,
        ];
        proof {
            assert(r@ =~= all_ranks());
        }
        r
    }

    /// The rank one place earlier in the ace-low order, cycling from
    /// ace back to king.
    pub fn prev(&self) -> (r: Rank)
        ensures
            rank_ordinal(r) == if rank_ordinal(*self) == 1 {
                13int
            } else {
                rank_ordinal(*self) - 1
            },
    {
        match self {
            Rank::Ace => Rank::King,
            Rank::Two => Rank::Ace,
            Rank::Three => Rank::Two,
            Rank::Four => Rank::Three,
            Rank::Five => Rank::Four,
            Rank::Six => Rank::Five,
            Rank::Seven => Rank::Six,
            Rank::Eight => Rank::Seven,
            Rank::Nine => Rank::Eight,
            Rank::Ten => Rank::Nine,
            Rank::Jack => Rank::Ten,
            Rank::Queen => Rank::Jack,
            Rank::King => Rank::Queen,
        }
    }

    /// The rank one place later in the ace-low order, cycling from king
    /// back to ace.
    pub fn next(&self) -> (r: Rank)
        ensures
            rank_ordinal(r) == if rank_ordinal(*self) == 13 {
                1int
            } else {
                rank_ordinal(*self) + 1
            },
    {
        match self {
            Rank::Ace => Rank::Two,
            Rank::Two => Rank::Three,
            Rank::Three => Rank::Four,
            Rank::Four => Rank::Five,
            Rank::Five => Rank::Six,
            Rank::Six => Rank::Seven,
            Rank::Seven => Rank::Eight,
            Rank::Eight => Rank::Nine,
            Rank::Nine => Rank::Ten,
            Rank::Ten => Rank::Jack,
            Rank::Jack => Rank::Queen,
            Rank::Queen => Rank::King,
            Rank::King => Rank::Ace,
        }
    }

    /// The rank denoted by the given character. The character must be a
    /// recognized rank character.
    pub fn from(origin: char) -> (r: Rank)
        requires
            rank_of_char(origin) is Some,
        ensures
            rank_of_char(origin) == Some(r),
    {
        if origin == 'a' || origin == 'A' {
            Rank::Ace
        } else if origin == '2' {
            Rank::Two
        } else if origin == '3' {
            Rank::Three
        } else if origin == '4' {
            Rank::Four
        } else if origin == '5' {
            Rank::Five
        } else if origin == '6' {
            Rank::Six
        } else if origin == '7' {
            Rank::Seven
        } else if origin == '8' {
            Rank::Eight
        } else if origin == '9' {
            Rank::Nine
        } else if origin == 't' || origin == 'T' {
            Rank::Ten
        } else if origin == 'j' || origin == 'J' {
            Rank::Jack
        } else if origin == 'q' || origin == 'Q' {
            Rank::Queen
        } else {
            Rank::King
        }
    }

    /// The canonical upper-case character for this rank.
    pub fn to_char(&self) -> (c: char)
        ensures
            rank_of_char(c) == Some(*self),
    {
        match self {
            Rank::Ace => 'A',
            Rank::Two => '2',
            Rank::Three => '3',
            Rank::Four => '4',
            Rank::Five => '5',
            Rank::Six => '6',
            Rank::Seven => '7',
            Rank::Eight => '8',
            Rank::Nine => '9',
            Rank::Ten => 'T',
            Rank::Jack => 'J',
            Rank::Queen => 'Q',
            Rank::King => 'K',
        }
    }

    /// The ordinal of this rank, ace low (1) to king high (13).
    pub fn ordinal(&self) -> (o: usize)
        ensures
            o as int == rank_ordinal(*self),
    {
        match self {
            Rank::Ace => 1,
            Rank::Two => 2,
            Rank::Three => 3,
            Rank::Four => 4,
            Rank::Five => 5,
            Rank::Six => 6,
            Rank::Seven => 7,
            Rank::Eight => 8,
            Rank::Nine => 9,
            Rank::Ten => 10,
            Rank::Jack => 11,
            Rank::Queen => 12,
            Rank::King => 13,
        }
    }

    /// The pip value of this rank: the ordinal, with face cards worth ten.
    pub fn value(&self) -> (v: u8)
        ensures
            v as int == rank_value(*self),
    {
        match self {
            Rank::Ace => 1,
            Rank::Two => 2,
            Rank::Three => 3,
            Rank::Four => 4,
            Rank::Five => 5,
            Rank::Six => 6,
            Rank::Seven => 7,
            Rank::Eight => 8,
            Rank::Nine => 9,
            _ => 10,
        }
    }
}

impl Suit {
    /// All suits, in the canonical order.
    pub fn iter() -> (r: Vec<Suit>)
        ensures
            r@ == all_suits(),
    {
        let r: Vec<Suit> = vec![Suit::Spades, Suit::Hearts, Suit::Clubs, Suit::Diamonds];
        proof {
            assert(r@ =~= all_suits());
        }
        r
    }

    /// The suit denoted by the given character. The character must be a
    /// recognized suit character.
    pub fn from(origin: char) -> (s: Suit)
        requires
            suit_of_char(origin) is Some,
        ensures
            suit_of_char(origin) == Some(s),
    {
        if origin == 's' || origin == 'S' {
            Suit::Spades
        } else if origin == 'h' || origin == 'H' {
            Suit::Hearts
        } else if origin == 'c' || origin == 'C' {
            Suit::Clubs
        } else {
            Suit::Diamonds
        }
    }

    /// The playing-card symbol for this suit.
    pub fn to_symbol(&self) -> (c: char)
        ensures
            c == match *self {
                Suit::Spades => '\u{2660}',
                Suit::Hearts => '\u{2665}',
                Suit::Clubs => '\u{2663}',
                Suit::Diamonds => '\u{2666}',
            },
    {
        match self {
            Suit::Spades => '\u{2660}',
            Suit::Hearts => '\u{2665}',
            Suit::Clubs => '\u{2663}',
            Suit::Diamonds => '\u{2666}',
        }
    }

    /// The ordinal of this suit in the canonical order, 1 to 4.
    pub fn ordinal(&self) -> (o: usize)
        ensures
            o as int == suit_ordinal(*self),
    {
        match self {
            Suit::Spades => 1,
            Suit::Hearts => 2,
            Suit::Clubs => 3,
            Suit::Diamonds => 4,
        }
    }

    /// The suit one place later in the canonical order, cycling.
    pub fn next(&self) -> (s: Suit)
        ensures
            suit_ordinal(s) == if suit_ordinal(*self) == 4 {
                1int
            } else {
                suit_ordinal(*self) + 1
            },
    {
        match self {
            Suit::Spades => Suit::Hearts,
            Suit::Hearts => Suit::Clubs,
            Suit::Clubs => Suit::Diamonds,
            Suit::Diamonds => Suit::Spades,
        }
    }

    /// The suit one place earlier in the canonical order, cycling.
    pub fn prev(&self) -> (s: Suit)
        ensures
            suit_ordinal(s) == if suit_ordinal(*self) == 1 {
                4int
            } else {
                suit_ordinal(*self) - 1
            },
    {
        match self {
            Suit::Spades => Suit::Diamonds,
            Suit::Hearts => Suit::Spades,
            Suit::Clubs => Suit::Hearts,
            Suit::Diamonds => Suit::Clubs,
        }
    }
}

impl Card {
    /// A card of the given suit and rank.
    pub fn new(suit: Suit, rank: Rank) -> (c: Card)
        ensures
            c == (Card { rank, suit }),
    {
        Card { rank, suit }
    }

    /// The card denoted by a two-character text: a rank character
    /// followed by a suit character, both of which must be recognized.
    pub fn from(origin: &str) -> (c: Card)
        requires
            origin@.len() >= 2,
            rank_of_char(origin@[0]) is Some,
            suit_of_char(origin@[1]) is Some,
        ensures
            Some(c.rank) == rank_of_char(origin@[0]),
            Some(c.suit) == suit_of_char(origin@[1]),
    {
        let rank_char = origin.get_char(0);
        let suit_char = origin.get_char(1);
        Card { rank: Rank::from(rank_char), suit: Suit::from(suit_char) }
    }
}

/// A dealable stack of cards: an ordered sequence that `shuffle`
/// re-materializes from a fixed stock and that `deal` consumes from the
/// front.
pub trait Dealable: Sized {
    /// The cards currently remaining, in deal order.
    spec fn contents(&self) -> Seq<Card>;

    /// The multiset of cards that every shuffle re-materializes.
    spec fn stock(&self) -> Multiset<Card>;

    /// The fixed sequence every shuffle replays, if this deck is
    /// deterministic; a randomly shuffled deck has none.
    spec fn replay(&self) -> Option<Seq<Card>>;

    /// How many cards remain to be dealt.
    fn remaining(&self) -> (n: usize)
        ensures
            n == self.contents().len(),
    ;

    /// Restore the full stock: some order of it in general, and exactly
    /// the replay sequence on a deterministic deck.
    fn shuffle(&mut self)
        ensures
            final(self).contents().to_multiset() == old(self).stock(),
            final(self).stock() == old(self).stock(),
            final(self).replay() == old(self).replay(),
            old(self).replay() matches Some(s) ==> final(self).contents() == s,
    ;

    /// Remove and return the first `count` remaining cards.
    fn deal(&mut self, count: usize) -> (dealt: Vec<Card>)
        requires
            count <= old(self).contents().len(),
        ensures
            dealt@ == old(self).contents().take(count as int),
            final(self).contents() == old(self).contents().skip(count as int),
            final(self).stock() == old(self).stock(),
            final(self).replay() == old(self).replay(),
    ;
}

/// A deck of cards. In random mode it holds the 52 distinct cards and
/// every shuffle permutes them uniformly; in stacked mode every shuffle
/// replays a fixed caller-supplied sequence, for deterministic play in
/// tests.
pub struct Deck {
    cards: Vec<Card>,
    stacking: Option<Vec<Card>>,
    dealt: Ghost<Seq<Card>>,
}

impl Deck {
    /// The cards currently remaining, in deal order.
    pub closed spec fn contents(&self) -> Seq<Card> {
        self.cards@
    }

    /// The fixed sequence this deck replays on shuffle, if stacked.
    pub closed spec fn stacked_with(&self) -> Option<Seq<Card>> {
        match self.stacking {
            Some(ref s) => Some(s@),
            None => None,
        }
    }

    /// The multiset of cards restored by every shuffle: the 52 distinct
    /// cards in random mode, the stacked sequence in stacked mode.
    pub closed spec fn stock(&self) -> Multiset<Card> {
        match self.stacked_with() {
            Some(s) => s.to_multiset(),
            None => all_cards().to_multiset(),
        }
    }

    /// The cards dealt since the last shuffle, in deal order.
    pub closed spec fn dealt_cards(&self) -> Seq<Card> {
        self.dealt@
    }

    /// What remains and what has been dealt together make up exactly
    /// one stock.
    pub closed spec fn wf(&self) -> bool {
        (self.dealt@ + self.cards@).to_multiset() == self.stock()
    }

    /// A full 52-card deck in the canonical order, one card of each
    /// rank and suit.
    pub fn new() -> (d: Deck)
        ensures
            d.wf(),
            d.contents() == all_cards(),
            d.stacked_with() is None,
            d.stock() == all_cards().to_multiset(),
            d.dealt_cards() == Seq::<Card>::empty(),
    {
        let suits = Suit::iter();
        let ranks = Rank::iter();
        let mut cards: Vec<Card> = Vec::new();
        let mut si: usize = 0;
        while si < 4
            invariant
                si <= 4,
                suits@ == all_suits(),
                ranks@ == all_ranks(),
                cards@ =~= all_cards().take(si as int * 13),
            decreases 4 - si,
        {
            let mut ri: usize = 0;
            while ri < 13
                invariant
                    si < 4,
                    ri <= 13,
                    suits@ == all_suits(),
                    ranks@ == all_ranks(),
                    cards@ =~= all_cards().take(si as int * 13 + ri as int),
                decreases 13 - ri,
            {
                cards.push(Card { rank: ranks[ri], suit: suits[si] });
                proof {
                    let i = si as int * 13 + ri as int;
                    assert(i / 13 == si as int && i % 13 == ri as int) by (nonlinear_arith)
                        requires
                            0 <= si < 4,
                            0 <= ri < 13,
                            i == si as int * 13 + ri as int,
                    ;
                    assert(all_cards()[i] == Card { rank: all_ranks()[ri as int], suit: all_suits()[si as int] });
                    assert(cards@ =~= all_cards().take(i + 1));
                }
                ri += 1;
            }
            si += 1;
        }
        proof {
            assert(cards@ =~= all_cards());
        }
        Deck { cards, stacking: None, dealt: Ghost(Seq::empty()) }
    }

    /// A stacked deck: it holds the given cards now and replays exactly
    /// this sequence on every shuffle.
    pub fn stacked(cards: Vec<Card>) -> (d: Deck)
        ensures
            d.wf(),
            d.contents() == cards@,
            d.stacked_with() == Some(cards@),
            d.stock() == cards@.to_multiset(),
            d.dealt_cards() == Seq::<Card>::empty(),
    {
        let stacking = Some(cards.clone());
        let d = Deck { cards, stacking, dealt: Ghost(Seq::empty()) };
        proof {
            assert(d.wf()) by {
                assert(Seq::<Card>::empty() + d.cards@ =~= d.cards@);
            }
        }
        d
    }

    /// Re-materialize the whole stock: a uniformly random permutation
    /// of the 52 cards in random mode, the fixed sequence in stacked
    /// mode.
    pub fn shuffle(&mut self)
        ensures
            final(self).wf(),
            final(self).stacked_with() == old(self).stacked_with(),
            final(self).stock() == old(self).stock(),
            final(self).dealt_cards() == Seq::<Card>::empty(),
            final(self).contents().to_multiset() == old(self).stock(),
            old(self).stacked_with() matches Some(s) ==> final(self).contents() == s,
    {
        let stacked = match &self.stacking {
            Some(stacking) => {
                self.cards = stacking.clone();
                true
            },
            None => {
                self.cards = Deck::new().cards;
                shuffle_cards(&mut self.cards);
                false
            },
        };
        self.dealt = Ghost(Seq::empty());
        proof {
            assert(Seq::<Card>::empty() + self.cards@ =~= self.cards@);
        }
    }

    /// How many cards remain to be dealt.
    pub fn remaining(&self) -> (n: usize)
        ensures
            n == self.contents().len(),
    {
        self.cards.len()
    }

    /// Remove and return the first `count` cards. The deck must hold at
    /// least that many.
    pub fn deal(&mut self, count: usize) -> (dealt: Vec<Card>)
        requires
            count <= old(self).contents().len(),
        ensures
            old(self).wf() ==> final(self).wf(),
            dealt@ == old(self).contents().take(count as int),
            final(self).contents() == old(self).contents().skip(count as int),
            final(self).stock() == old(self).stock(),
            final(self).stacked_with() == old(self).stacked_with(),
            final(self).dealt_cards() == old(self).dealt_cards() + dealt@,
    {
        let ghost orig = self.cards@;
        let mut dealt: Vec<Card> = Vec::new();
        let mut i: usize = 0;
        while i < count
            invariant
                i <= count,
                count <= self.cards@.len(),
                self.cards@ == orig,
                dealt@ =~= orig.take(i as int),
            decreases count - i,
        {
            dealt.push(self.cards[i]);
            i += 1;
        }
        let rest = self.cards.split_off(count);
        self.cards = rest;
        proof {
            self.dealt@ = self.dealt@ + dealt@;
            assert(old(self).dealt@ + orig =~= (old(self).dealt@ + dealt@) + self.cards@) by {
                assert(orig =~= orig.take(count as int) + orig.skip(count as int));
            }
        }
        dealt
    }
}

impl Dealable for Deck {
    closed spec fn contents(&self) -> Seq<Card> {
        self.cards@
    }

    closed spec fn stock(&self) -> Multiset<Card> {
        Deck::stock(self)
    }

    closed spec fn replay(&self) -> Option<Seq<Card>> {
        Deck::stacked_with(self)
    }

    fn remaining(&self) -> (n: usize) {
        Deck::remaining(self)
    }

    fn shuffle(&mut self) {
        Deck::shuffle(self);
    }

    fn deal(&mut self, count: usize) -> (dealt: Vec<Card>) {
        Deck::deal(self, count)
    }
}

/// A deck that holds a fixed, caller-supplied sequence of cards and
/// replays exactly that sequence on every shuffle.
pub struct StackedDeck {
    cards: Vec<Card>,
    stacking: Vec<Card>,
}

impl StackedDeck {
    /// A stacked deck over the given cards.
    pub fn new(cards: Vec<Card>) -> (d: StackedDeck)
        ensures
            d.contents() == cards@,
            d.stock() == cards@.to_multiset(),
            d.replay() == Some(cards@),
    {
        let stacking = cards.clone();
        StackedDeck { cards, stacking }
    }
}

impl Dealable for StackedDeck {
    closed spec fn contents(&self) -> Seq<Card> {
        self.cards@
    }

    closed spec fn stock(&self) -> Multiset<Card> {
        self.stacking@.to_multiset()
    }

    closed spec fn replay(&self) -> Option<Seq<Card>> {
        Some(self.stacking@)
    }

    fn remaining(&self) -> (n: usize) {
        self.cards.len()
    }

    fn shuffle(&mut self) {
        self.cards = self.stacking.clone();
    }

    fn deal(&mut self, count: usize) -> (dealt: Vec<Card>) {
        let mut dealt: Vec<Card> = Vec::new();
        let ghost orig = self.cards@;
        let mut i: usize = 0;
        while i < count
            invariant
                i <= count,
                count <= self.cards@.len(),
                self.cards@ == orig,
                dealt@ =~= orig.take(i as int),
            decreases count - i,
        {
            dealt.push(self.cards[i]);
            i += 1;
        }
        let rest = self.cards.split_off(count);
        self.cards = rest;
        dealt
    }
}

/// A `Deck` reached through the `Dealable` trait shows the same
/// contents, stock, and replay sequence that its own methods describe,
/// so the runner's step contracts apply to a deck built by `Deck::new`
/// or `Deck::stacked`.
pub proof fn lemma_deck_dealable_agrees(d: Deck)
    ensures
        <Deck as Dealable>::contents(&d) == d.contents(),
        <Deck as Dealable>::stock(&d) == d.stock(),
        <Deck as Dealable>::replay(&d) == d.stacked_with(),
{
}

/// Relies on rand's `SliceRandom::shuffle` (with `rand::thread_rng`):
/// it permutes the slice in place by swaps, so the multiset of elements
/// is unchanged; nothing is promised about the resulting order.
#[verifier::external_body]
fn shuffle_cards(cards: &mut Vec<Card>)
    ensures
        final(cards)@.to_multiset() == old(cards)@.to_multiset(),
{
    cards.shuffle(&mut rand::thread_rng());
}

/// The ordinals of the ranks in the canonical enumeration count 1 to 13.
proof fn lemma_rank_table()
    ensures
        forall|k: int| 0 <= k < 13 ==> rank_ordinal(#[trigger] all_ranks()[k]) == k + 1,
{
    assert forall|k: int| 0 <= k < 13 implies rank_ordinal(#[trigger] all_ranks()[k]) == k + 1 by {
        assert(rank_ordinal(all_ranks()[0]) == 1);
        assert(rank_ordinal(all_ranks()[1]) == 2);
        assert(rank_ordinal(all_ranks()[2]) == 3);
        assert(rank_ordinal(all_ranks()[3]) == 4);
        assert(rank_ordinal(all_ranks()[4]) == 5);
        assert(rank_ordinal(all_ranks()[5]) == 6);
        assert(rank_ordinal(all_ranks()[6]) == 7);
        assert(rank_ordinal(all_ranks()[7]) == 8);
        assert(rank_ordinal(all_ranks()[8]) == 9);
        assert(rank_ordinal(all_ranks()[9]) == 10);
        assert(rank_ordinal(all_ranks()[10]) == 11);
        assert(rank_ordinal(all_ranks()[11]) == 12);
        assert(rank_ordinal(all_ranks()[12]) == 13);
    }
}

/// The ordinals of the suits in the canonical enumeration count 1 to 4.
proof fn lemma_suit_table()
    ensures
        forall|k: int| 0 <= k < 4 ==> suit_ordinal(#[trigger] all_suits()[k]) == k + 1,
{
    assert forall|k: int| 0 <= k < 4 implies suit_ordinal(#[trigger] all_suits()[k]) == k + 1 by {
        assert(suit_ordinal(all_suits()[0]) == 1);
        assert(suit_ordinal(all_suits()[1]) == 2);
        assert(suit_ordinal(all_suits()[2]) == 3);
        assert(suit_ordinal(all_suits()[3]) == 4);
    }
}

/// The index of a card in the canonical 52-card order.
pub open spec fn card_slot(c: Card) -> int {
    (suit_ordinal(c.suit) - 1) * 13 + (rank_ordinal(c.rank) - 1)
}

/// The 52-card deck holds each rank and suit combination exactly once.
pub proof fn lemma_full_deck()
    ensures
        all_cards().len() == 52,
        all_cards().no_duplicates(),
        forall|c: Card| all_cards().contains(c),
        forall|c: Card| all_cards().to_multiset().count(c) == 1,
{
    lemma_rank_table();
    lemma_suit_table();
    assert forall|c: Card| all_cards().contains(c) by {
        let i = card_slot(c);
        assert(1 <= rank_ordinal(c.rank) <= 13);
        assert(1 <= suit_ordinal(c.suit) <= 4);
        assert(i / 13 == suit_ordinal(c.suit) - 1 && i % 13 == rank_ordinal(c.rank) - 1)
            by (nonlinear_arith)
            requires
                i == (suit_ordinal(c.suit) - 1) * 13 + (rank_ordinal(c.rank) - 1),
                1 <= rank_ordinal(c.rank) <= 13,
                1 <= suit_ordinal(c.suit) <= 4,
        ;
        assert(rank_ordinal(all_ranks()[i % 13]) == rank_ordinal(c.rank));
        assert(suit_ordinal(all_suits()[i / 13]) == suit_ordinal(c.suit));
        assert(all_ranks()[i % 13] == c.rank);
        assert(all_suits()[i / 13] == c.suit);
        assert(all_cards()[i] == c);
    }
    assert(all_cards().no_duplicates()) by {
        assert forall|i: int, j: int|
            0 <= i < 52 && 0 <= j < 52 && i != j implies all_cards()[i] != all_cards()[j] by {
            if i / 13 == j / 13 {
                assert(i % 13 != j % 13) by (nonlinear_arith)
                    requires
                        0 <= i < 52,
                        0 <= j < 52,
                        i != j,
                        i / 13 == j / 13,
                ;
                assert(rank_ordinal(all_ranks()[i % 13]) != rank_ordinal(all_ranks()[j % 13]));
            } else {
                assert(suit_ordinal(all_suits()[i / 13]) != suit_ordinal(all_suits()[j / 13]));
            }
        }
    }
    assert forall|c: Card| all_cards().to_multiset().count(c) == 1 by {
        broadcast use vstd::seq_lib::group_to_multiset_ensures;

        all_cards().lemma_multiset_has_no_duplicates();
        assert(all_cards().contains(c));
    }
}

/// Dealing draws without replacement: in random mode, what a deck has
/// dealt since its last shuffle and what remains in it are, together,
/// the 52 distinct cards, so no card is ever dealt twice and no dealt
/// card remains in the deck.
pub proof fn lemma_deals_without_replacement(d: Deck)
    requires
        d.wf(),
        d.stacked_with() is None,
    ensures
        (d.dealt_cards() + d.contents()).no_duplicates(),
        d.dealt_cards().no_duplicates(),
        d.contents().no_duplicates(),
        forall|c: Card| !(d.dealt_cards().contains(c) && d.contents().contains(c)),
{
    broadcast use vstd::seq_lib::group_to_multiset_ensures;

    lemma_full_deck();
    let whole = d.dealt_cards() + d.contents();
    assert forall|c: Card| whole.to_multiset().contains(c) implies whole.to_multiset().count(c)
        == 1 by {
        assert(whole.to_multiset().count(c) == all_cards().to_multiset().count(c));
    }
    whole.lemma_multiset_has_no_duplicates_conv();
    let dealt = d.dealt_cards();
    let held = d.contents();
    assert(dealt.no_duplicates()) by {
        assert forall|i: int, j: int|
            0 <= i < dealt.len() && 0 <= j < dealt.len() && i != j implies dealt[i] != dealt[j] by {
            assert(whole[i] == dealt[i] && whole[j] == dealt[j]);
        }
    }
    assert(held.no_duplicates()) by {
        assert forall|i: int, j: int|
            0 <= i < held.len() && 0 <= j < held.len() && i != j implies held[i] != held[j] by {
            assert(whole[dealt.len() + i] == held[i] && whole[dealt.len() + j] == held[j]);
        }
    }
    assert forall|c: Card| !(dealt.contains(c) && held.contains(c)) by {
        if dealt.contains(c) && held.contains(c) {
            let i = choose|i: int| 0 <= i < dealt.len() && dealt[i] == c;
            let j = choose|j: int| 0 <= j < held.len() && held[j] == c;
            assert(whole[i] == c);
            assert(whole[dealt.len() + j] == c);
        }
    }
}

} // verus!
