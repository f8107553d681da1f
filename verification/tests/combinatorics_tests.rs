//! The subset generator.

use gcribbage::combinatorics::combinations;
use gcribbage::deck::Card;

fn c(text: &str) -> Card {
    Card::from(text)
}

fn cards(texts: &[&str]) -> Vec<Card> {
    texts.iter().map(|t| c(t)).collect()
}

#[test]
fn combinatorics_test_pairs() {
    let pool = cards(&["ac", "2d", "3s", "4h"]);
    let results = combinations(&pool, 2);
    assert_eq!(results.len(), 6);
    assert!(results.contains(&cards(&["ac", "2d"])));
    assert!(results.contains(&cards(&["ac", "3s"])));
    assert!(results.contains(&cards(&["ac", "4h"])));
    assert!(results.contains(&cards(&["2d", "3s"])));
    assert!(results.contains(&cards(&["2d", "4h"])));
    assert!(results.contains(&cards(&["3s", "4h"])));
}

#[test]
fn combinations_of_too_few_cards_is_empty() {
    let pool = cards(&["ac", "2d"]);
    assert_eq!(0, combinations(&pool, 3).len());
}

#[test]
fn combinations_counts_match_the_formula() {
    let pool = cards(&["ac", "2d", "3s", "4h", "5c"]);
    assert_eq!(1, combinations(&pool, 0).len());
    assert_eq!(5, combinations(&pool, 1).len());
    assert_eq!(10, combinations(&pool, 2).len());
    assert_eq!(10, combinations(&pool, 3).len());
    assert_eq!(5, combinations(&pool, 4).len());
    assert_eq!(1, combinations(&pool, 5).len());
}
