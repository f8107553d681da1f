//! The match runner, driven one transition at a time from stacked
//! positions.

use gcribbage::deck::{Card, Deck, StackedDeck};
use gcribbage::player::{PerPlayer, PlayerPosition, SimplePlayer};
use gcribbage::scoring::PeggingScorings;
use gcribbage::simulation::runner::{AcknowledgementType, GameRunner, GameState, PlayResult};

fn c(text: &str) -> Card {
    Card::from(text)
}

fn cards(texts: &[&str]) -> Vec<Card> {
    texts.iter().map(|t| c(t)).collect()
}

struct TestFixture {
    hands: [Vec<Card>; 2],
    dealt_hands: [Vec<Card>; 2],
    deck: Vec<Card>,
    played_cards: Vec<Card>,
    state: GameState,
    scores: [u8; 2],
    crib: Vec<Card>,
}

impl TestFixture {
    fn new() -> Self {
        Self {
            hands: [Vec::new(), Vec::new()],
            dealt_hands: [Vec::new(), Vec::new()],
            deck: Vec::new(),
            played_cards: Vec::new(),
            state: GameState::ChooseDealer,
            scores: [0, 0],
            crib: Vec::new(),
        }
    }

    fn stack_deck(&mut self, stacked: &[Card]) {
        self.deck = stacked.to_vec();
    }

    fn set_state(&mut self, state: GameState) {
        self.state = state;
    }

    fn set_hand(&mut self, position: PlayerPosition, hand: &[Card]) {
        match position {
            PlayerPosition::First => self.hands[0].extend_from_slice(hand),
            PlayerPosition::Second => self.hands[1].extend_from_slice(hand),
        }
    }

    fn set_dealt_hand(&mut self, position: PlayerPosition, hand: &[Card]) {
        match position {
            PlayerPosition::First => self.dealt_hands[0].extend_from_slice(hand),
            PlayerPosition::Second => self.dealt_hands[1].extend_from_slice(hand),
        }
    }

    fn set_score(&mut self, position: PlayerPosition, score: u8) {
        match position {
            PlayerPosition::First => self.scores[0] = score,
            PlayerPosition::Second => self.scores[1] = score,
        }
    }

    fn set_played_cards(&mut self, stacked: &[Card]) {
        self.played_cards = stacked.to_vec();
    }

    fn set_crib(&mut self, stacked: &[Card]) {
        self.crib = stacked.to_vec();
    }

    fn do_iterations(&mut self, num: usize) -> PlayResult {
        let mut result: Option<PlayResult> = None;
        let mut first = SimplePlayer {};
        let mut second = SimplePlayer {};
        let mut runner = GameRunner::new(Deck::stacked(self.deck.clone()));
        runner.state = self.state;
        runner.played_cards = self.played_cards.clone();
        runner.hands = PerPlayer::new(self.hands[0].clone(), self.hands[1].clone());
        runner.dealt_hands =
            PerPlayer::new(self.dealt_hands[0].clone(), self.dealt_hands[1].clone());
        runner.scores = PerPlayer::new(self.scores[0], self.scores[1]);
        runner.up_card = Some(c("ad"));
        runner.crib = self.crib.clone();
        for _ in 0..num {
            result = runner.do_next_play(&mut first, &mut second);
        }
        result.unwrap()
    }
}

#[test]
fn runner_test_selects_right_dealer() {
    for (stacked, expected_dealer) in [
        ([c("as"), c("ks")], PlayerPosition::First),
        ([c("ks"), c("as")], PlayerPosition::Second),
    ] {
        let mut fixture = TestFixture::new();
        fixture.stack_deck(&stacked);
        let result = fixture.do_iterations(1);
        match result {
            PlayResult::DealerChosen(info) => {
                assert_eq!(info.dealer, expected_dealer);
                assert_eq!(info.up_cards.first, stacked[0]);
                assert_eq!(info.up_cards.second, stacked[1]);
            }
            _ => panic!("Wrong play result {:?}", result),
        }
    }
}

#[test]
fn runner_test_does_not_entertain_a_tie() {
    let stacked = [c("as"), c("ah"), c("ac"), c("kc")];
    let mut fixture = TestFixture::new();
    fixture.stack_deck(&stacked);
    let result = fixture.do_iterations(1);
    match result {
        PlayResult::DealerChosen(info) => {
            assert_eq!(info.dealer, PlayerPosition::First);
            assert_eq!(info.up_cards.first, stacked[2]);
            assert_eq!(info.up_cards.second, stacked[3]);
        }
        _ => panic!("Wrong play result {:?}", result),
    }
}

#[test]
fn test_deals_cards() {
    let stacked = cards(&[
        "as", "2s", "3s", "4s", "5s", "6s", "ac", "2c", "3c", "4c", "5c", "6c", "ad",
    ]);
    let mut fixture = TestFixture::new();
    fixture.stack_deck(&stacked);
    fixture.set_state(GameState::DealCards);
    let result = fixture.do_iterations(1);
    match result {
        PlayResult::WaitingForCrib(info) => {
            assert_eq!(info.dealer, PlayerPosition::First);
            assert_eq!(info.hands.first, stacked[0..6].to_vec());
            assert_eq!(info.hands.second, stacked[6..12].to_vec());
            assert_eq!(0, info.scores.first);
            assert_eq!(0, info.scores.second);
        }
        _ => panic!("Wrong play result {:?}", result),
    }
}

#[test]
fn test_gets_crib_choices() {
    for (up_card, is_nibs) in [
        (c("ah"), false),
        (c("js"), true),
        (c("jh"), true),
        (c("jc"), true),
        (c("jd"), true),
    ] {
        let mut fixture = TestFixture::new();
        fixture.stack_deck(&[up_card]);
        fixture.set_state(GameState::ChooseCrib);
        fixture.set_hand(
            PlayerPosition::First,
            &cards(&["as", "2s", "3s", "4s", "5s", "6s"]),
        );
        fixture.set_hand(
            PlayerPosition::Second,
            &cards(&["ac", "2c", "3c", "4c", "5c", "6c"]),
        );

        let result = fixture.do_iterations(1);
        match result {
            PlayResult::AnnounceUpCard(info) => {
                assert_eq!(info.dealer, PlayerPosition::First);
                if is_nibs {
                    assert_eq!(2, info.scores.first);
                } else {
                    assert_eq!(0, info.scores.first);
                }
                assert_eq!(0, info.scores.second);
                assert_eq!(up_card, info.up_card);
                assert_eq!(is_nibs, info.is_nibs);
            }
            _ => panic!("Wrong play result {:?}", result),
        }
    }
}

#[test]
fn test_ends_game_if_nibs_scores_enough() {
    let mut fixture = TestFixture::new();
    fixture.stack_deck(&[c("js")]);
    fixture.set_state(GameState::ChooseCrib);
    fixture.set_hand(
        PlayerPosition::First,
        &cards(&["as", "2s", "3s", "4s", "5s", "6s"]),
    );
    fixture.set_hand(
        PlayerPosition::Second,
        &cards(&["ac", "2c", "3c", "4c", "5c", "6c"]),
    );
    fixture.set_score(PlayerPosition::First, 120);

    let result = fixture.do_iterations(2);
    match result {
        PlayResult::GameOver(info) => {
            assert_eq!(info.winner, PlayerPosition::First);
            assert_eq!(121, info.scores.first);
            assert_eq!(0, info.scores.second);
        }
        _ => panic!("Wrong play result {:?}", result),
    }
}

#[test]
fn test_begins_pegging() {
    let mut fixture = TestFixture::new();
    fixture.set_state(GameState::PrepareForPlay);
    let first_hand = cards(&["as", "2s", "3s", "4s"]);
    let second_hand = cards(&["ac", "2c", "3c", "4c"]);
    fixture.set_hand(PlayerPosition::First, &first_hand);
    fixture.set_hand(PlayerPosition::Second, &second_hand);

    let result = fixture.do_iterations(1);
    match result {
        PlayResult::ReadyForPlay(info) => {
            assert_eq!(0, info.played_cards.len());
            assert_eq!(first_hand, info.hands.first);
            assert_eq!(second_hand, info.hands.second);
            assert_eq!(0, info.scores.first);
            assert_eq!(0, info.scores.second);
            assert_eq!(PlayerPosition::Second, info.current_player);
        }
        _ => panic!("Wrong play result {:?}", result),
    }
}

#[test]
fn test_keeps_track_of_played_cards() {
    let mut fixture = TestFixture::new();
    fixture.set_state(GameState::WaitingForPlay);
    let first_hand = cards(&["as", "3s", "6s", "9s"]);
    let second_hand = cards(&["5c", "jc", "qd", "kc"]);
    fixture.set_hand(PlayerPosition::First, &first_hand);
    fixture.set_hand(PlayerPosition::Second, &second_hand);

    let result = fixture.do_iterations(4);
    match result {
        PlayResult::ReadyForPlay(info) => {
            assert_eq!(4, info.played_cards.len(), "{:?}", info.played_cards);
            assert_eq!(first_hand[2..].to_vec(), info.hands.first);
            assert_eq!(second_hand[2..].to_vec(), info.hands.second);
            assert_eq!(PlayerPosition::Second, info.current_player);
        }
        _ => panic!("Wrong play result {:?}", result),
    }
}

#[test]
fn test_counts_score() {
    let mut fixture = TestFixture::new();
    fixture.set_state(GameState::WaitingForPlay);
    fixture.set_hand(PlayerPosition::First, &cards(&["5s"]));
    fixture.set_hand(PlayerPosition::Second, &cards(&["kc"]));

    let result = fixture.do_iterations(2);
    match result {
        PlayResult::AnnounceScoring(info) => {
            assert_eq!(2, info.scores.first);
            assert_eq!(0, info.scores.second);
            assert_eq!(1, info.scorings.len());
            assert_eq!(PeggingScorings::Fifteen, info.scorings[0]);
        }
        _ => panic!("Wrong play result {:?}", result),
    }
}

#[test]
fn test_counts_thirty_one() {
    let mut fixture = TestFixture::new();
    fixture.set_state(GameState::WaitingForPlay);
    fixture.set_hand(PlayerPosition::First, &cards(&["ts", "qs"]));
    fixture.set_hand(PlayerPosition::Second, &cards(&["as", "kc"]));

    let result = fixture.do_iterations(4);
    match result {
        PlayResult::AnnounceScoring(info) => {
            assert_eq!(2, info.scores.first);
            assert_eq!(0, info.scores.second);
            assert_eq!(1, info.scorings.len());
            assert_eq!(PeggingScorings::ThirtyOne, info.scorings[0]);
        }
        _ => panic!("Wrong play result {:?}", result),
    }
}

#[test]
fn resets_after_thirty_one() {
    let mut fixture = TestFixture::new();
    fixture.set_state(GameState::WaitingForPlay);
    fixture.set_hand(PlayerPosition::First, &cards(&["ts", "qs"]));
    fixture.set_hand(PlayerPosition::Second, &cards(&["as", "kc", "qc"]));

    let result = fixture.do_iterations(5);
    match result {
        PlayResult::ReadyForPlay(info) => {
            assert_eq!(0, info.played_cards.len());
        }
        _ => panic!("Wrong play result {:?}", result),
    }
}

#[test]
fn test_announces_go() {
    let mut fixture = TestFixture::new();
    fixture.set_state(GameState::WaitingForPlay);
    fixture.set_hand(PlayerPosition::First, &cards(&["ts", "qs"]));
    fixture.set_hand(PlayerPosition::Second, &cards(&["2s", "kc"]));

    let result = fixture.do_iterations(3);
    match result {
        PlayResult::AnnounceGo(info) => {
            assert_eq!(3, info.played_cards.len());
        }
        _ => panic!("Wrong play result {:?}", result),
    }
}

#[test]
fn test_announces_go_for_both_players() {
    let mut fixture = TestFixture::new();
    fixture.set_state(GameState::WaitingForPlay);
    fixture.set_hand(PlayerPosition::First, &cards(&["ts", "qs"]));
    fixture.set_hand(PlayerPosition::Second, &cards(&["2s", "kc"]));

    let result = fixture.do_iterations(4);
    match result {
        PlayResult::AnnounceGo(info) => {
            assert_eq!(3, info.played_cards.len());
        }
        _ => panic!("Wrong play result {:?}", result),
    }
}

#[test]
fn test_gives_point_for_last_card() {
    let mut fixture = TestFixture::new();
    fixture.set_state(GameState::WaitingForPlay);
    fixture.set_hand(PlayerPosition::First, &cards(&["ts", "qs"]));
    fixture.set_hand(PlayerPosition::Second, &cards(&["2s", "kc"]));
    fixture.set_played_cards(&cards(&["4s"]));

    let result = fixture.do_iterations(5);
    match result {
        PlayResult::AnnounceScoring(info) => {
            assert_eq!(1, info.scorings.len());
        }
        _ => panic!("Wrong play result {:?}", result),
    }
}

#[test]
fn test_resets_after_last_card() {
    let mut fixture = TestFixture::new();
    fixture.set_state(GameState::WaitingForAcknowledgement(
        AcknowledgementType::SecondGo,
    ));
    fixture.set_hand(PlayerPosition::First, &cards(&["ts", "qs"]));
    fixture.set_hand(PlayerPosition::Second, &cards(&["2s", "kc"]));

    let result = fixture.do_iterations(2);
    match result {
        PlayResult::ReadyForPlay(info) => {
            assert_eq!(0, info.played_cards.len());
        }
        _ => panic!("Wrong play result {:?}", result),
    }
}

#[test]
fn test_player_can_win_on_last_card() {
    let mut fixture = TestFixture::new();
    fixture.set_state(GameState::WaitingForAcknowledgement(
        AcknowledgementType::SecondGo,
    ));
    fixture.set_hand(PlayerPosition::First, &cards(&["ts", "qs"]));
    fixture.set_hand(PlayerPosition::Second, &cards(&["2s", "kc"]));
    fixture.set_score(PlayerPosition::Second, 120);

    let result = fixture.do_iterations(3);
    match result {
        PlayResult::GameOver(info) => {
            assert_eq!(PlayerPosition::Second, info.winner);
        }
        _ => panic!("Wrong play result {:?}", result),
    }
}

#[test]
fn test_scores_hand_when_no_pegging_play_left() {
    let mut fixture = TestFixture::new();
    fixture.set_dealt_hand(PlayerPosition::First, &cards(&["as", "2s", "3s", "4s"]));
    fixture.set_dealt_hand(PlayerPosition::Second, &cards(&["ac", "2c", "3c", "4c"]));
    fixture.set_state(GameState::WaitingForAcknowledgement(
        AcknowledgementType::SecondGo,
    ));

    let result = fixture.do_iterations(2);
    match result {
        PlayResult::AnnounceHandScore(_) => {}
        _ => panic!("Wrong play result {:?}", result),
    }
}

#[test]
fn test_scores_dealer_after_scoring_hand() {
    let mut fixture = TestFixture::new();
    fixture.set_dealt_hand(PlayerPosition::First, &cards(&["as", "2s", "3s", "4s"]));
    fixture.set_dealt_hand(PlayerPosition::Second, &cards(&["ac", "2c", "3c", "4c"]));
    fixture.set_state(GameState::ScoreHand);

    let result = fixture.do_iterations(1);
    match result {
        PlayResult::AnnounceDealerScore(_) => {}
        _ => panic!("Wrong play result {:?}", result),
    }
}

#[test]
fn test_player_can_win_after_scoring_hand() {
    let mut fixture = TestFixture::new();
    fixture.set_dealt_hand(PlayerPosition::First, &cards(&["as", "2s", "3s", "4s"]));
    fixture.set_dealt_hand(PlayerPosition::Second, &cards(&["ac", "2c", "3c", "4c"]));
    fixture.set_score(PlayerPosition::First, 121);
    fixture.set_state(GameState::ScoreHand);

    let result = fixture.do_iterations(1);
    match result {
        PlayResult::GameOver(info) => {
            assert_eq!(PlayerPosition::First, info.winner);
        }
        _ => panic!("Wrong play result {:?}", result),
    }
}

#[test]
fn test_scores_crib_after_scoring_dealer() {
    let mut fixture = TestFixture::new();
    fixture.set_crib(&cards(&["as", "2s", "3s", "4s"]));
    fixture.set_state(GameState::ScoreDealer);

    let result = fixture.do_iterations(1);
    match result {
        PlayResult::AnnounceCribScore(_) => {}
        _ => panic!("Wrong play result {:?}", result),
    }
}

#[test]
fn test_dealer_can_win_after_scoring_dealer() {
    let mut fixture = TestFixture::new();
    fixture.set_dealt_hand(PlayerPosition::First, &cards(&["as", "2s", "3s", "4s"]));
    fixture.set_dealt_hand(PlayerPosition::Second, &cards(&["ac", "2c", "3c", "4c"]));
    fixture.set_score(PlayerPosition::Second, 121);
    fixture.set_state(GameState::ScoreDealer);

    let result = fixture.do_iterations(1);
    match result {
        PlayResult::GameOver(info) => {
            assert_eq!(PlayerPosition::Second, info.winner);
        }
        _ => panic!("Wrong play result {:?}", result),
    }
}

#[test]
fn test_redeals_after_scoring_crib() {
    let mut fixture = TestFixture::new();
    fixture.set_state(GameState::ScoreCrib);

    let result = fixture.do_iterations(1);
    match result {
        PlayResult::NextHand(_) => {}
        _ => panic!("Wrong play result {:?}", result),
    }
}

#[test]
fn test_dealer_can_win_after_scoring_crib() {
    let mut fixture = TestFixture::new();
    fixture.set_dealt_hand(PlayerPosition::First, &cards(&["as", "2s", "3s", "4s"]));
    fixture.set_dealt_hand(PlayerPosition::Second, &cards(&["ac", "2c", "3c", "4c"]));
    fixture.set_score(PlayerPosition::Second, 121);
    fixture.set_state(GameState::ScoreCrib);

    let result = fixture.do_iterations(1);
    match result {
        PlayResult::GameOver(info) => {
            assert_eq!(PlayerPosition::Second, info.winner);
        }
        _ => panic!("Wrong play result {:?}", result),
    }
}

#[test]
fn rules_test_selects_right_dealer() {
    for (stacked, expected_dealer) in [
        ([c("as"), c("ks")], PlayerPosition::First),
        ([c("ks"), c("as")], PlayerPosition::Second),
    ] {
        let deck = StackedDeck::new(stacked.to_vec());
        let mut runner = GameRunner::new(deck);
        let (_state, result) = runner.choose_dealer();
        match result {
            Some(PlayResult::DealerChosen(info)) => {
                assert_eq!(info.dealer, expected_dealer);
                assert_eq!(info.up_cards.first, stacked[0]);
                assert_eq!(info.up_cards.second, stacked[1]);
            }
            _ => panic!("Wrong play result {:?}", result),
        }
    }
}

#[test]
fn rules_test_does_not_entertain_a_tie() {
    let stacked = [c("as"), c("ah"), c("ac"), c("kc")];
    let deck = StackedDeck::new(stacked.to_vec());
    let mut runner = GameRunner::new(deck);
    let (_state, result) = runner.choose_dealer();
    match result {
        Some(PlayResult::DealerChosen(info)) => {
            assert_eq!(info.dealer, PlayerPosition::First);
            assert_eq!(info.up_cards.first, stacked[2]);
            assert_eq!(info.up_cards.second, stacked[3]);
        }
        _ => panic!("Wrong play result {:?}", result),
    }
}

#[test]
fn full_match_reaches_every_count() {
    let stacked = cards(&[
        "as", "ks", "2s", "3s", "4s", "5s", "6s", "7s", "2c", "3c", "4c", "5c", "6c", "7c", "8d",
    ]);
    let mut first = SimplePlayer {};
    let mut second = SimplePlayer {};
    let mut runner = GameRunner::new(Deck::stacked(stacked));
    let mut saw_hand_count = false;
    let mut saw_dealer_count = false;
    let mut saw_crib_count = false;
    let mut saw_next_hand = false;
    let mut finished = false;
    for _ in 0..10_000 {
        match runner.do_next_play(&mut first, &mut second) {
            Some(PlayResult::AnnounceHandScore(_)) => saw_hand_count = true,
            Some(PlayResult::AnnounceDealerScore(_)) => saw_dealer_count = true,
            Some(PlayResult::AnnounceCribScore(_)) => saw_crib_count = true,
            Some(PlayResult::NextHand(_)) => saw_next_hand = true,
            Some(PlayResult::GameOver(info)) => {
                assert!(info.scores.first == 121 || info.scores.second == 121);
                finished = true;
                break;
            }
            Some(_) => {}
            None => panic!("a real match must never be refused a step"),
        }
    }
    assert!(saw_hand_count, "the pone's hand was never counted");
    assert!(saw_dealer_count, "the dealer's hand was never counted");
    assert!(saw_crib_count, "the crib was never counted");
    assert!(saw_next_hand, "the deal never rotated");
    assert!(finished, "the match never reached a winner");
}

#[test]
fn crib_step_snapshots_the_post_discard_hands() {
    let mut fixture = TestFixture::new();
    fixture.stack_deck(&[c("ah")]);
    fixture.set_state(GameState::ChooseCrib);
    fixture.set_hand(
        PlayerPosition::First,
        &cards(&["as", "2s", "3s", "4s", "5s", "6s"]),
    );
    fixture.set_hand(
        PlayerPosition::Second,
        &cards(&["ac", "2c", "3c", "4c", "5c", "6c"]),
    );
    let mut first = SimplePlayer {};
    let mut second = SimplePlayer {};
    let mut runner = GameRunner::new(Deck::stacked(fixture.deck.clone()));
    runner.state = fixture.state;
    runner.hands = PerPlayer::new(fixture.hands[0].clone(), fixture.hands[1].clone());
    let result = runner.do_next_play(&mut first, &mut second);
    assert!(matches!(result, Some(PlayResult::AnnounceUpCard(_))));
    // The snapshots hold exactly the four cards each seat kept.
    assert_eq!(cards(&["3s", "4s", "5s", "6s"]), runner.dealt_hands.first);
    assert_eq!(cards(&["3c", "4c", "5c", "6c"]), runner.dealt_hands.second);
    assert_eq!(runner.hands.first, runner.dealt_hands.first);
    assert_eq!(runner.hands.second, runner.dealt_hands.second);
}
