//! The card model and the deck's without-replacement dealing.

use gcribbage::deck::{Card, Deck, Rank, Suit};
use gcribbage::game::must_say_go;
use gcribbage::player::{SimplePlayer, KnowsCribbage, PlayerPosition};
use gcribbage::simulation::runner::has_play;

fn c(text: &str) -> Card {
    Card::from(text)
}

fn cards(texts: &[&str]) -> Vec<Card> {
    texts.iter().map(|t| c(t)).collect()
}

#[test]
fn fresh_deck_holds_every_card_once() {
    let mut deck = Deck::new();
    let dealt = deck.deal(52);
    assert_eq!(52, dealt.len());
    for rank in Rank::iter() {
        for suit in Suit::iter() {
            let count = dealt
                .iter()
                .filter(|card| card.rank == rank && card.suit == suit)
                .count();
            assert_eq!(1, count, "{:?} of {:?}", rank, suit);
        }
    }
}

#[test]
fn deals_draw_without_replacement() {
    let mut deck = Deck::new();
    deck.shuffle();
    let early = deck.deal(26);
    let late = deck.deal(26);
    for card in early.iter() {
        assert!(!late.contains(card));
    }
    for i in 0..early.len() {
        for j in 0..early.len() {
            if i != j {
                assert_ne!(early[i], early[j]);
            }
        }
    }
}

#[test]
fn shuffle_restores_the_full_deck() {
    let mut deck = Deck::new();
    let _gone = deck.deal(30);
    deck.shuffle();
    let dealt = deck.deal(52);
    for rank in Rank::iter() {
        for suit in Suit::iter() {
            assert!(dealt.contains(&Card::new(suit, rank)));
        }
    }
}

#[test]
fn stacked_deck_replays_its_sequence() {
    let stacked = cards(&["As", "Kd", "7h"]);
    let mut deck = Deck::stacked(stacked.clone());
    assert_eq!(stacked, deck.deal(3));
    deck.shuffle();
    assert_eq!(stacked, deck.deal(3));
}

#[test]
fn rank_characters_round_trip() {
    for rank in Rank::iter() {
        assert_eq!(rank, Rank::from(rank.to_char()));
    }
    assert_eq!(Rank::Ace, Rank::from('a'));
    assert_eq!(Rank::Ten, Rank::from('t'));
    assert_eq!(Rank::King, Rank::from('K'));
}

#[test]
fn rank_order_and_values() {
    let ranks = Rank::iter();
    assert_eq!(13, ranks.len());
    for (i, rank) in ranks.iter().enumerate() {
        assert_eq!(i + 1, rank.ordinal());
        let expected_value = if rank.ordinal() > 10 { 10 } else { rank.ordinal() as u8 };
        assert_eq!(expected_value, rank.value());
        assert_eq!(*rank, rank.next().prev());
        assert_eq!(*rank, rank.prev().next());
    }
    assert_eq!(Rank::King, Rank::Ace.prev());
    assert_eq!(Rank::Ace, Rank::King.next());
}

#[test]
fn suit_order_and_symbols() {
    let suits = Suit::iter();
    assert_eq!(4, suits.len());
    for (i, suit) in suits.iter().enumerate() {
        assert_eq!(i + 1, suit.ordinal());
        assert_eq!(*suit, suit.next().prev());
        assert_eq!(*suit, suit.prev().next());
        assert_eq!(*suit, Suit::from(match suit {
            Suit::Spades => 's',
            Suit::Hearts => 'h',
            Suit::Clubs => 'c',
            Suit::Diamonds => 'd',
        }));
    }
    assert_eq!('\u{2660}', Suit::Spades.to_symbol());
    assert_eq!('\u{2665}', Suit::Hearts.to_symbol());
    assert_eq!('\u{2663}', Suit::Clubs.to_symbol());
    assert_eq!('\u{2666}', Suit::Diamonds.to_symbol());
}

#[test]
fn card_parsing_reads_rank_then_suit() {
    let card = Card::from("Qd");
    assert_eq!(Rank::Queen, card.rank);
    assert_eq!(Suit::Diamonds, card.suit);
    assert_eq!(Card::new(Suit::Diamonds, Rank::Queen), card);
}

#[test]
fn must_go_exactly_when_no_card_fits() {
    // A lone ten against a table of thirty forces the go.
    let hand = cards(&["Ts"]);
    let played = cards(&["Kc", "Qd", "Jh"]);
    assert!(must_say_go(&hand, &played));
    assert!(!has_play(&hand, &played));

    // An ace against the same table fits exactly.
    let hand = cards(&["Ts", "As"]);
    assert!(!must_say_go(&hand, &played));
    assert!(has_play(&hand, &played));

    // An empty hand can never play.
    let empty: Vec<Card> = vec![];
    assert!(must_say_go(&empty, &played));
    assert!(!has_play(&empty, &cards(&[])));
}

#[test]
fn simple_player_discards_and_plays_the_lowest() {
    let mut player = SimplePlayer {};
    let hand = cards(&["6h", "As", "Kd", "2c", "9s", "Ah"]);
    let picks = player.choose_crib(&hand);
    assert_eq!(cards(&["As", "Ah"]), picks);
    let choice = player.play(&cards(&["Kd", "2c", "9s"]), 0);
    assert_eq!(c("2c"), choice);
    // With a table at thirty, the lowest card is still within bounds.
    let choice = player.play(&cards(&["As", "Kd"]), 30);
    assert_eq!(c("As"), choice);
}

#[test]
fn positions_alternate() {
    assert_eq!(PlayerPosition::Second, PlayerPosition::First.next());
    assert_eq!(PlayerPosition::First, PlayerPosition::Second.next());
}
