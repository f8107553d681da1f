//! Hand, crib, and pegging scoring against known tables.

use gcribbage::deck::Card;
use gcribbage::player::{PerPlayer, PlayerPosition};
use gcribbage::scoring::{
    award_points, score_crib, score_hand, score_pegging, HandScorings, PeggingScorings,
};

fn c(text: &str) -> Card {
    Card::from(text)
}

fn cards(texts: &[&str]) -> Vec<Card> {
    texts.iter().map(|t| c(t)).collect()
}

fn contains(hand: &Vec<Card>, up_card: &Card, expected: &Vec<HandScorings>) -> bool {
    let scorings = score_hand(hand, *up_card);
    for scoring in expected.iter() {
        if !scorings.contains(scoring) {
            return false;
        }
    }
    true
}

fn crib_contains(hand: &Vec<Card>, up_card: &Card, expected: &Vec<HandScorings>) -> bool {
    let scorings = score_crib(hand, *up_card);
    for scoring in expected.iter() {
        if !scorings.contains(scoring) {
            return false;
        }
    }
    true
}

#[test]
fn test_non_scoring_hand() {
    let hand = cards(&["Ts", "Qh", "7h", "Ad"]);
    let up_card = c("Ks");
    let result = score_hand(&hand, up_card);
    assert_eq!(0, result.len());
}

#[test]
fn test_score_two_card_fifteens() {
    let tests: Vec<(&str, Vec<Card>, Card, Vec<HandScorings>)> = vec![
        (
            "7-8 Fifteen",
            cards(&["7s", "8h", "Th", "Qd"]),
            c("Ks"),
            vec![HandScorings::Fifteen(cards(&["7s", "8h"]))],
        ),
        (
            "9-6 Fifteen",
            cards(&["9s", "6h", "Th", "Qd"]),
            c("Ks"),
            vec![HandScorings::Fifteen(cards(&["9s", "6h"]))],
        ),
        (
            "10-5 Fifteen",
            cards(&["Ts", "5h", "9h", "Qd"]),
            c("Ks"),
            vec![HandScorings::Fifteen(cards(&["Ts", "5h"]))],
        ),
        (
            "J-5 Fifteen",
            cards(&["Js", "5h", "9h", "Td"]),
            c("Ks"),
            vec![HandScorings::Fifteen(cards(&["Js", "5h"]))],
        ),
        (
            "Q-5 Fifteen",
            cards(&["Qs", "5h", "9h", "Td"]),
            c("Ks"),
            vec![HandScorings::Fifteen(cards(&["Qs", "5h"]))],
        ),
        (
            "K-5 Fifteen",
            cards(&["Ks", "5h", "9h", "Td"]),
            c("Qs"),
            vec![HandScorings::Fifteen(cards(&["Ks", "5h"]))],
        ),
        (
            "Multiple Fifteens",
            cards(&["Ks", "5h", "Qh", "Td"]),
            c("Qs"),
            vec![
                HandScorings::Fifteen(cards(&["Ks", "5h"])),
                HandScorings::Fifteen(cards(&["5h", "Qh"])),
                HandScorings::Fifteen(cards(&["5h", "Td"])),
                HandScorings::Fifteen(cards(&["5h", "Qs"])),
            ],
        ),
    ];
    for (description, hand, up_card, expected) in tests {
        assert!(contains(&hand, &up_card, &expected), "{}", description);
    }
}

#[test]
fn test_score_three_card_fifteens() {
    let tests: Vec<(&str, Vec<Card>, Card, Vec<HandScorings>)> = vec![
        (
            "T-4-A Fifteen",
            cards(&["As", "4h", "9h", "Td"]),
            c("7s"),
            vec![HandScorings::Fifteen(cards(&["As", "4h", "Td"]))],
        ),
        (
            "Multiple three card Fifteens",
            cards(&["As", "4h", "9h", "Td"]),
            c("Ks"),
            vec![
                HandScorings::Fifteen(cards(&["As", "4h", "Td"])),
                HandScorings::Fifteen(cards(&["As", "4h", "Ks"])),
            ],
        ),
    ];
    for (description, hand, up_card, expected) in tests {
        assert!(contains(&hand, &up_card, &expected), "{}", description);
    }
}

#[test]
fn four_card_fifteens() {
    let tests: Vec<(&str, Vec<Card>, Card, Vec<HandScorings>)> = vec![
        (
            "T-3-A-A Fifteen",
            cards(&["As", "Ah", "3h", "Td"]),
            c("7s"),
            vec![HandScorings::Fifteen(cards(&["As", "Ah", "3h", "Td"]))],
        ),
        (
            "Multiple four card Fifteens",
            cards(&["As", "Ah", "3h", "Td"]),
            c("Ks"),
            vec![
                HandScorings::Fifteen(cards(&["As", "Ah", "3h", "Td"])),
                HandScorings::Fifteen(cards(&["As", "Ah", "3h", "Ks"])),
            ],
        ),
    ];
    for (description, hand, up_card, expected) in tests {
        assert!(contains(&hand, &up_card, &expected), "{}", description);
    }
}

#[test]
fn five_card_fifteens() {
    let tests: Vec<(&str, Vec<Card>, Card, Vec<HandScorings>)> = vec![
        (
            "5-4-2-2-2 Fifteen",
            cards(&["5s", "4h", "2h", "2d"]),
            c("2s"),
            vec![HandScorings::Fifteen(cards(&["5s", "4h", "2h", "2d", "2s"]))],
        ),
        (
            "6-5-2-A-A Fifteen",
            cards(&["6s", "5h", "2h", "Ad"]),
            c("As"),
            vec![HandScorings::Fifteen(cards(&["6s", "5h", "2h", "Ad", "As"]))],
        ),
    ];
    for (description, hand, up_card, expected) in tests {
        assert!(contains(&hand, &up_card, &expected), "{}", description);
    }
}

#[test]
fn scoring_test_pairs() {
    let tests: Vec<(&str, Vec<Card>, Card, Vec<HandScorings>)> = vec![
        (
            "Single pair",
            cards(&["2s", "2c", "Ah", "Th"]),
            c("Ks"),
            vec![HandScorings::Pair(cards(&["2s", "2c"]))],
        ),
        (
            "Two distinct pairs",
            cards(&["2s", "2c", "Ah", "Ad"]),
            c("Ks"),
            vec![
                HandScorings::Pair(cards(&["2s", "2c"])),
                HandScorings::Pair(cards(&["Ah", "Ad"])),
            ],
        ),
        (
            "Pair royale",
            cards(&["2s", "2c", "2h", "Ad"]),
            c("Ks"),
            vec![
                HandScorings::Pair(cards(&["2s", "2c"])),
                HandScorings::Pair(cards(&["2s", "2h"])),
                HandScorings::Pair(cards(&["2c", "2h"])),
            ],
        ),
        (
            "Double pair royale",
            cards(&["2s", "2c", "2h", "2d"]),
            c("Ks"),
            vec![
                HandScorings::Pair(cards(&["2s", "2c"])),
                HandScorings::Pair(cards(&["2s", "2h"])),
                HandScorings::Pair(cards(&["2s", "2d"])),
                HandScorings::Pair(cards(&["2c", "2h"])),
                HandScorings::Pair(cards(&["2c", "2d"])),
                HandScorings::Pair(cards(&["2h", "2d"])),
            ],
        ),
    ];
    for (description, hand, up_card, expected) in tests {
        assert!(contains(&hand, &up_card, &expected), "{}", description);
    }
}

#[test]
fn runs_of_three() {
    let tests: Vec<(&str, Vec<Card>, Card, Vec<HandScorings>)> = vec![
        (
            "Single run of three",
            cards(&["As", "2s", "3d", "Tc"]),
            c("Ks"),
            vec![HandScorings::RunOfThree(cards(&["As", "2s", "3d"]))],
        ),
        (
            "Double run of three",
            cards(&["As", "2s", "3d", "Ac"]),
            c("Ks"),
            vec![
                HandScorings::RunOfThree(cards(&["As", "2s", "3d"])),
                HandScorings::RunOfThree(cards(&["2s", "3d", "Ac"])),
            ],
        ),
        (
            "Triple run of three",
            cards(&["As", "2s", "3d", "Ac"]),
            c("Ah"),
            vec![
                HandScorings::RunOfThree(cards(&["As", "2s", "3d"])),
                HandScorings::RunOfThree(cards(&["2s", "3d", "Ac"])),
                HandScorings::RunOfThree(cards(&["2s", "3d", "Ah"])),
            ],
        ),
    ];
    for (description, hand, up_card, expected) in tests {
        assert!(contains(&hand, &up_card, &expected), "{}", description);
    }
}

#[test]
fn runs_of_four() {
    let tests: Vec<(&str, Vec<Card>, Card, Vec<HandScorings>, Vec<HandScorings>)> = vec![
        (
            "Single run of four",
            cards(&["As", "2s", "3d", "4c"]),
            c("Ks"),
            vec![HandScorings::RunOfFour(cards(&["As", "2s", "3d", "4c"]))],
            vec![
                HandScorings::RunOfThree(cards(&["As", "2s", "3d"])),
                HandScorings::RunOfThree(cards(&["2s", "3d", "4c"])),
            ],
        ),
        (
            "Double run of four",
            cards(&["As", "2s", "3d", "4c"]),
            c("Ac"),
            vec![
                HandScorings::RunOfFour(cards(&["As", "2s", "3d", "4c"])),
                HandScorings::RunOfFour(cards(&["2s", "3d", "4c", "Ac"])),
            ],
            vec![
                HandScorings::RunOfThree(cards(&["As", "2s", "3d"])),
                HandScorings::RunOfThree(cards(&["2s", "3d", "Ac"])),
                HandScorings::RunOfThree(cards(&["2s", "3d", "4c"])),
            ],
        ),
    ];
    for (description, hand, up_card, expected, unexpecteds) in tests {
        assert!(contains(&hand, &up_card, &expected), "{}", description);
        for unexpected in unexpecteds {
            assert!(
                !contains(&hand, &up_card, &vec![unexpected.clone()]),
                "{} {:?}",
                description,
                unexpected
            );
        }
    }
}

#[test]
fn runs_of_five() {
    let tests: Vec<(&str, Vec<Card>, Card, Vec<HandScorings>, Vec<HandScorings>)> = vec![(
        "Run of five",
        cards(&["As", "2s", "3d", "4c"]),
        c("5s"),
        vec![HandScorings::RunOfFive(cards(&["As", "2s", "3d", "4c", "5s"]))],
        vec![
            HandScorings::RunOfFour(cards(&["As", "2s", "3d", "4c"])),
            HandScorings::RunOfFour(cards(&["2s", "3d", "4c", "5s"])),
            HandScorings::RunOfThree(cards(&["As", "2s", "3d"])),
            HandScorings::RunOfThree(cards(&["2s", "3d", "4c"])),
            HandScorings::RunOfThree(cards(&["3d", "4c", "5s"])),
        ],
    )];
    for (description, hand, up_card, expected, unexpecteds) in tests {
        assert!(contains(&hand, &up_card, &expected), "{}", description);
        for unexpected in unexpecteds {
            assert!(
                !contains(&hand, &up_card, &vec![unexpected.clone()]),
                "{} {:?}",
                description,
                unexpected
            );
        }
    }
}

#[test]
fn four_card_flush() {
    let hand = cards(&["As", "2s", "3s", "4s"]);
    let up_card = c("5c");
    let expected = vec![HandScorings::FourCardFlush(cards(&["As", "2s", "3s", "4s"]))];
    assert!(contains(&hand, &up_card, &expected), "Four card flush");
}

#[test]
fn five_card_flush() {
    let hand = cards(&["As", "2s", "3s", "4s"]);
    let up_card = c("5s");
    let expected = vec![HandScorings::FiveCardFlush(cards(&[
        "As", "2s", "3s", "4s", "5s",
    ]))];
    assert!(contains(&hand, &up_card, &expected), "Five card flush");
    for unexpected in [
        HandScorings::FourCardFlush(cards(&["As", "2s", "3s", "4s"])),
        HandScorings::FourCardFlush(cards(&["2s", "3s", "4s", "5s"])),
    ] {
        assert!(
            !contains(&hand, &up_card, &vec![unexpected.clone()]),
            "Five card flush {:?}",
            unexpected
        );
    }
}

#[test]
fn nobs() {
    let tests: Vec<(&str, Vec<Card>, Card, Vec<HandScorings>)> = vec![
        (
            "Nobs spades",
            cards(&["Js", "2c", "3h", "4d"]),
            c("5s"),
            vec![HandScorings::Nobs(c("Js"))],
        ),
        (
            "Nobs hearts",
            cards(&["Jh", "2c", "3s", "4d"]),
            c("5h"),
            vec![HandScorings::Nobs(c("Jh"))],
        ),
        (
            "Nobs clubs",
            cards(&["Jc", "2s", "3h", "4d"]),
            c("5c"),
            vec![HandScorings::Nobs(c("Jc"))],
        ),
        (
            "Nobs diamonds",
            cards(&["Jd", "2c", "3h", "4c"]),
            c("5d"),
            vec![HandScorings::Nobs(c("Jd"))],
        ),
    ];
    for (description, hand, up_card, expected) in tests {
        assert!(contains(&hand, &up_card, &expected), "{}", description);
    }
}

#[test]
fn four_card_flush_not_allowed() {
    let hand = cards(&["As", "2s", "3s", "4s"]);
    let up_card = c("5c");
    let expected = vec![HandScorings::FourCardFlush(cards(&["As", "2s", "3s", "4s"]))];
    assert!(!crib_contains(&hand, &up_card, &expected), "Four card flush");
}

#[test]
fn scoring_five_card_flush() {
    let hand = cards(&["As", "2s", "3s", "4s"]);
    let up_card = c("5s");
    let expected = vec![HandScorings::FiveCardFlush(cards(&[
        "As", "2s", "3s", "4s", "5s",
    ]))];
    assert!(crib_contains(&hand, &up_card, &expected), "Five card flush");
    for unexpected in [
        HandScorings::FourCardFlush(cards(&["As", "2s", "3s", "4s"])),
        HandScorings::FourCardFlush(cards(&["2s", "3s", "4s", "5s"])),
    ] {
        assert!(
            !crib_contains(&hand, &up_card, &vec![unexpected.clone()]),
            "Five card flush {:?}",
            unexpected
        );
    }
}

#[test]
fn test_score_pegging() {
    let tests: Vec<(&str, Vec<Card>, Vec<PeggingScorings>)> = vec![
        ("No cards played", vec![], vec![]),
        ("Non-scoring card played", cards(&["as"]), vec![]),
        (
            "Fifteen",
            cards(&["7s", "8c"]),
            vec![PeggingScorings::Fifteen],
        ),
        (
            "Thirty One",
            cards(&["Ts", "Tc", "Th", "Ah"]),
            vec![PeggingScorings::ThirtyOne],
        ),
        (
            "Pair",
            cards(&["as", "ac"]),
            vec![PeggingScorings::Pair(cards(&["as", "ac"]))],
        ),
        (
            "Pair royale",
            cards(&["as", "ac", "ad"]),
            vec![
                PeggingScorings::Pair(cards(&["as", "ac"])),
                PeggingScorings::Pair(cards(&["as", "ad"])),
                PeggingScorings::Pair(cards(&["ac", "ad"])),
            ],
        ),
        (
            "Double pair royale",
            cards(&["as", "ac", "ad", "ah"]),
            vec![
                PeggingScorings::Pair(cards(&["as", "ac"])),
                PeggingScorings::Pair(cards(&["as", "ad"])),
                PeggingScorings::Pair(cards(&["as", "ah"])),
                PeggingScorings::Pair(cards(&["ac", "ad"])),
                PeggingScorings::Pair(cards(&["ac", "ah"])),
                PeggingScorings::Pair(cards(&["ad", "ah"])),
            ],
        ),
        (
            "Run of three",
            cards(&["as", "2s", "3s"]),
            vec![PeggingScorings::RunOfThree],
        ),
        (
            "Run of four",
            cards(&["as", "2s", "3s", "4s"]),
            vec![PeggingScorings::RunOfFour],
        ),
        (
            "Run of five",
            cards(&["as", "2s", "3s", "4s", "5s"]),
            vec![PeggingScorings::RunOfFive],
        ),
        (
            "Run of six",
            cards(&["as", "2s", "3s", "4s", "5s", "6s"]),
            vec![PeggingScorings::RunOfSix],
        ),
    ];

    for (description, test, expected) in tests {
        let scorings = score_pegging(test.clone());
        for scoring in expected.iter() {
            assert!(
                scorings.contains(scoring),
                "{}, {:?}, {:?}",
                description,
                scoring,
                scorings,
            );
        }
    }
}

#[test]
fn double_pair_royale_scores_six_pairs_only() {
    let scorings = score_pegging(cards(&["As", "Ac", "Ad", "Ah"]));
    assert_eq!(6, scorings.len());
    for scoring in scorings.iter() {
        assert!(matches!(scoring, PeggingScorings::Pair(_)));
        assert_eq!(2, scoring.value());
    }
}

#[test]
fn pegging_fifteen_is_the_only_event() {
    let scorings = score_pegging(cards(&["7s", "8c"]));
    assert_eq!(vec![PeggingScorings::Fifteen], scorings);
}

#[test]
fn pegging_fifteen_with_run() {
    let scorings = score_pegging(cards(&["4c", "5c", "6s"]));
    assert!(scorings.contains(&PeggingScorings::Fifteen));
    assert!(scorings.contains(&PeggingScorings::RunOfThree));
    assert_eq!(2, scorings.len());
}

#[test]
fn maximal_hand_scores_twenty_nine() {
    let hand = cards(&["5s", "5h", "5c", "Jd"]);
    let scorings = score_hand(&hand, c("5d"));
    let total: u32 = scorings.iter().map(|s| s.value() as u32).sum();
    assert_eq!(29, total);
}

#[test]
fn event_values_match_the_table() {
    assert_eq!(2, PeggingScorings::Fifteen.value());
    assert_eq!(2, PeggingScorings::Pair(vec![]).value());
    assert_eq!(3, PeggingScorings::RunOfThree.value());
    assert_eq!(4, PeggingScorings::RunOfFour.value());
    assert_eq!(5, PeggingScorings::RunOfFive.value());
    assert_eq!(6, PeggingScorings::RunOfSix.value());
    assert_eq!(7, PeggingScorings::RunOfSeven.value());
    assert_eq!(2, PeggingScorings::ThirtyOne.value());
    assert_eq!(1, PeggingScorings::LastCard.value());
    assert_eq!(2, HandScorings::Fifteen(vec![]).value());
    assert_eq!(2, HandScorings::Pair(vec![]).value());
    assert_eq!(3, HandScorings::RunOfThree(vec![]).value());
    assert_eq!(4, HandScorings::RunOfFour(vec![]).value());
    assert_eq!(5, HandScorings::RunOfFive(vec![]).value());
    assert_eq!(4, HandScorings::FourCardFlush(vec![]).value());
    assert_eq!(5, HandScorings::FiveCardFlush(vec![]).value());
    assert_eq!(1, HandScorings::Nobs(Card::from("Js")).value());
}

#[test]
fn awards_clamp_to_exactly_121_and_end_the_game() {
    let mut scores: PerPlayer<u8> = PerPlayer::new(119, 40);
    // A short award leaves the game running.
    assert!(!award_points(&mut scores, PlayerPosition::First, 1));
    assert_eq!(120, scores.first);
    assert_eq!(40, scores.second);
    // An award past the line is clamped to exactly 121 and wins.
    assert!(award_points(&mut scores, PlayerPosition::First, 29));
    assert_eq!(121, scores.first);
    assert_eq!(40, scores.second);
    // An award landing exactly on 121 wins too.
    let mut scores: PerPlayer<u8> = PerPlayer::new(0, 119);
    assert!(award_points(&mut scores, PlayerPosition::Second, 2));
    assert_eq!(121, scores.second);
}
