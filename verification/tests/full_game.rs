//! A whole match driven through the runner with a stacked deck.

use gcribbage::deck::{Card, Deck};
use gcribbage::player::KnowsCribbage;
use gcribbage::simulation::runner::{GameRunner, PlayResult};

struct TestPlayer {}

impl KnowsCribbage for TestPlayer {
    fn choose_crib(&mut self, hand: &Vec<Card>) -> Vec<Card> {
        let mut sorted = gcribbage::player::sort_cards(hand);
        sorted.truncate(2);
        sorted
    }

    fn play(&mut self, hand: &Vec<Card>, total: u8) -> Card {
        let sorted = gcribbage::player::sort_cards(hand);
        for card in sorted.iter() {
            if card.rank.value() as u16 + total as u16 <= 31 {
                return *card;
            }
        }
        sorted[0]
    }
}

#[test]
fn test_full_game() {
    let stacked = [
        Card::from("as"),
        Card::from("js"),
        Card::from("as"),
        Card::from("2s"),
        Card::from("3s"),
        Card::from("4s"),
        Card::from("5s"),
        Card::from("6s"),
        Card::from("ac"),
        Card::from("2c"),
        Card::from("3c"),
        Card::from("4c"),
        Card::from("5c"),
        Card::from("6c"),
        Card::from("ad"),
    ];
    let deck = Deck::stacked(stacked.to_vec());
    let mut first = TestPlayer {};
    let mut second = TestPlayer {};
    let mut runner = GameRunner::new(deck);
    loop {
        let result = runner.do_next_play(&mut first, &mut second);
        match result {
            Some(PlayResult::GameOver(_)) | None => break,
            _ => (),
        }
    }
}
