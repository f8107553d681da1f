//! Pegging scoring for the simulation engine, where every event
//! carries its cards.

use gcribbage::deck::Card;
use gcribbage::simulation::scoring::{score_pegging, Scorings};

fn c(text: &str) -> Card {
    Card::from(text)
}

fn cards(texts: &[&str]) -> Vec<Card> {
    texts.iter().map(|t| c(t)).collect()
}

#[test]
fn scoring_test_score_pegging() {
    let tests: Vec<(&str, Vec<Card>, Vec<Scorings>)> = vec![
        ("No cards played", vec![], vec![]),
        ("Non-scoring card played", cards(&["as"]), vec![]),
        (
            "Fifteen",
            cards(&["7s", "8c"]),
            vec![Scorings::Fifteen(cards(&["7s", "8c"]))],
        ),
        (
            "Pair",
            cards(&["as", "ac"]),
            vec![Scorings::Pair(cards(&["as", "ac"]))],
        ),
        (
            "Pair royale",
            cards(&["as", "ac", "ad"]),
            vec![
                Scorings::Pair(cards(&["as", "ac"])),
                Scorings::Pair(cards(&["as", "ad"])),
                Scorings::Pair(cards(&["ac", "ad"])),
            ],
        ),
        (
            "Double pair royale",
            cards(&["as", "ac", "ad", "ah"]),
            vec![
                Scorings::Pair(cards(&["as", "ac"])),
                Scorings::Pair(cards(&["as", "ad"])),
                Scorings::Pair(cards(&["as", "ah"])),
                Scorings::Pair(cards(&["ac", "ad"])),
                Scorings::Pair(cards(&["ac", "ah"])),
                Scorings::Pair(cards(&["ad", "ah"])),
            ],
        ),
        (
            "Run of three",
            cards(&["as", "2s", "3s"]),
            vec![Scorings::RunOfThree(cards(&["as", "2s", "3s"]))],
        ),
        (
            "Run of four",
            cards(&["as", "2s", "3s", "4s"]),
            vec![Scorings::RunOfFour(cards(&["as", "2s", "3s", "4s"]))],
        ),
        (
            "Run of five",
            cards(&["as", "2s", "3s", "4s", "5s"]),
            vec![Scorings::RunOfFive(cards(&["as", "2s", "3s", "4s", "5s"]))],
        ),
        (
            "Run of six",
            cards(&["as", "2s", "3s", "4s", "5s", "6s"]),
            vec![Scorings::RunOfSix(cards(&[
                "as", "2s", "3s", "4s", "5s", "6s",
            ]))],
        ),
    ];

    for (description, test, expected) in tests {
        let scorings = score_pegging(test.clone());
        for scoring in expected.iter() {
            assert!(
                scorings.contains(scoring),
                "{}, {:?}, {:?}",
                description,
                scoring,
                scorings,
            );
        }
    }
}
