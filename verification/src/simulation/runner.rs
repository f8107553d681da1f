//! The match runner: one call, one transition, from dealer selection
//! through pegging and the three counts to the win at 121.

use vstd::prelude::*;
use vstd::multiset::Multiset;
use crate::deck::{Card, Dealable, Rank, rank_value};
use crate::game::{dealer_of, dealer_scan, lemma_rank_ordinal_injective};
use crate::player::{
    KnowsCribbage,
    PerPlayer,
    PlayerPosition,
    can_play,
    position_after,
    remove_card,
};
use crate::scoring::{
    HandScorings,
    PeggingScorings,
    award_points,
    hand_points,
    hand_score,
    hand_total_value,
    hand_views,
    lemma_hand_score_points,
    lemma_peg_score_points,
    peg_score,
    peg_total_value,
    peg_views,
    pegging_points,
    pip_sum,
    score_crib,
    score_hand,
    score_pegging,
    total_of,
};

verus! {

/// What the pending acknowledgement acknowledges.
#[derive(Clone, Copy, Debug, PartialEq, Eq, Hash, Structural)]
pub enum AcknowledgementType {
    Scoring,
    FirstGo,
    SecondGo,
}

/// The step the match is waiting to take.
#[derive(Clone, Copy, Debug, PartialEq, Eq, Structural)]
pub enum GameState {
    ChooseDealer,
    DealCards,
    ChooseCrib,
    PrepareForPlay,
    WaitingForPlay,
    WaitingForAcknowledgement(AcknowledgementType),
    ScoreHand,
    ScoreDealer,
    ScoreCrib,
    Done,
}

/// The dealer cut announced: each seat's card, and who deals.
#[derive(Debug)]
pub struct CutInfo {
    pub up_cards: PerPlayer<Card>,
    pub dealer: PlayerPosition,
}

/// The deal announced: both hands, the dealer, the scores.
#[derive(Debug)]
pub struct Deal {
    pub dealer: PlayerPosition,
    pub hands: PerPlayer<Vec<Card>>,
    pub scores: PerPlayer<u8>,
}

/// The cut card announced, with the dealer's nibs if it is a jack.
#[derive(Debug)]
pub struct UpCardInfo {
    pub dealer: PlayerPosition,
    pub scores: PerPlayer<u8>,
    pub up_card: Card,
    pub is_nibs: bool,
}

/// A pegging turn pending.
#[derive(Debug)]
pub struct PlayInfo {
    pub played_cards: Vec<Card>,
    pub hands: PerPlayer<Vec<Card>>,
    pub scores: PerPlayer<u8>,
    pub current_player: PlayerPosition,
}

/// The match decided.
#[derive(Debug)]
pub struct FinalScores {
    pub winner: PlayerPosition,
    pub scores: PerPlayer<u8>,
}

/// Points scored during pegging, awaiting acknowledgement.
#[derive(Debug)]
pub struct ScoreInfo {
    pub played_cards: Vec<Card>,
    pub hands: PerPlayer<Vec<Card>>,
    pub scores: PerPlayer<u8>,
    pub current_player: PlayerPosition,
    pub scorings: Vec<PeggingScorings>,
}

/// A hand or crib counted.
#[derive(Debug)]
pub struct HandInfo {
    pub scores: PerPlayer<u8>,
    pub current_player: PlayerPosition,
    pub scorings: Vec<HandScorings>,
}

/// The deal rotating to the next dealer.
#[derive(Debug)]
pub struct CurrentScoreInfo {
    pub scores: PerPlayer<u8>,
    pub next_dealer: PlayerPosition,
}

/// What one transition of the runner yielded.
#[derive(Debug)]
pub enum PlayResult {
    DealerChosen(CutInfo),
    WaitingForCrib(Deal),
    AnnounceUpCard(UpCardInfo),
    GameOver(FinalScores),
    ReadyForPlay(PlayInfo),
    AnnounceScoring(ScoreInfo),
    AnnounceGo(PlayInfo),
    AnnounceHandScore(HandInfo),
    AnnounceDealerScore(HandInfo),
    AnnounceCribScore(HandInfo),
    NextHand(CurrentScoreInfo),
}

/// Whether any card of the hand can be laid without pushing the
/// running total past thirty-one.
pub fn has_play(hand: &Vec<Card>, played: &Vec<Card>) -> (r: bool)
    requires
        pip_sum(played@) <= 255,
    ensures
        r == can_play(hand@, pip_sum(played@)),
        r <==> (exists|i: int|
            0 <= i < hand@.len() && rank_value(#[trigger] hand@[i].rank) + pip_sum(played@) <= 31),
{
    let total = total_of(played);
    let mut i: usize = 0;
    while i < hand.len()
        invariant
            i <= hand@.len(),
            total as int == pip_sum(played@),
            forall|k: int|
                0 <= k < i ==> rank_value(#[trigger] hand@[k].rank) + pip_sum(played@) > 31,
        decreases hand@.len() - i,
    {
        if hand[i].rank.value() as u16 + total as u16 <= 31 {
            proof {
                assert(rank_value(hand@[i as int].rank) + pip_sum(played@) <= 31);
            }
            return true;
        }
        i += 1;
    }
    false
}

/// Whether the cards are pairwise distinct.
fn cards_distinct(cards: &Vec<Card>) -> (r: bool)
    ensures
        r == cards@.no_duplicates(),
{
    let mut i: usize = 0;
    while i < cards.len()
        invariant
            i <= cards@.len(),
            forall|p: int, q: int| 0 <= p < q < i ==> cards@[p] != cards@[q],
        decreases cards@.len() - i,
    {
        let mut j: usize = 0;
        while j < i
            invariant
                j <= i < cards@.len(),
                forall|q: int| 0 <= q < j ==> cards@[q] != cards@[i as int],
            decreases i - j,
        {
            if cards[j] == cards[i] {
                proof {
                    assert(cards@[j as int] == cards@[i as int]);
                    assert(!cards@.no_duplicates());
                }
                return false;
            }
            j += 1;
        }
        i += 1;
    }
    proof {
        assert(cards@.no_duplicates()) by {
            assert forall|p: int, q: int|
                0 <= p < cards@.len() && 0 <= q < cards@.len() && p != q implies cards@[p]
                != cards@[q] by {
                if p < q {
                } else {
                    assert(cards@[q] != cards@[p]);
                }
            }
        }
    }
    true
}

/// Both hands, copied.
fn clone_hands(h: &PerPlayer<Vec<Card>>) -> (r: PerPlayer<Vec<Card>>)
    ensures
        r.first@ == h.first@,
        r.second@ == h.second@,
{
    PerPlayer::new(h.first.clone(), h.second.clone())
}

/// Both scores, copied.
fn clone_scores(s: &PerPlayer<u8>) -> (r: PerPlayer<u8>)
    ensures
        r == *s,
{
    let r = PerPlayer::new(s.first, s.second);
    proof {
        assert(r == *s);
    }
    r
}

/// The main game runner: it sequences all the rules of cribbage, one
/// transition per call, and yields a result describing each step. The
/// players are handed in at each call; the runner owns only the match
/// state.
pub struct GameRunner<D: Dealable> {
    pub state: GameState,
    pub dealer: PlayerPosition,
    pub deck: D,
    pub dealt_hands: PerPlayer<Vec<Card>>,
    pub hands: PerPlayer<Vec<Card>>,
    pub scores: PerPlayer<u8>,
    pub up_card: Option<Card>,
    pub crib: Vec<Card>,
    pub current_player: PlayerPosition,
    pub played_cards: Vec<Card>,
    pub last_card_player: Option<PlayerPosition>,
}

impl<D: Dealable> GameRunner<D> {
    /// The running state is sound: the table never exceeds thirty-one,
    /// a pending play is always possible, and the phases that consume
    /// hands see enough cards.
    pub open spec fn wf(&self) -> bool {
        &&& pip_sum(self.played_cards@) <= 31
        &&& (self.state == GameState::WaitingForPlay ==> can_play(
            self.hands.of(self.current_player)@,
            pip_sum(self.played_cards@),
        ))
        &&& (self.state == GameState::ChooseCrib ==> self.hands.first@.len() >= 3
            && self.hands.second@.len() >= 3)
        &&& (self.state == GameState::PrepareForPlay ==> self.hands.of(
            self.current_player,
        )@.len() > 0)
    }

    /// Neither seat has reached the winning score.
    pub open spec fn scores_live(&self) -> bool {
        self.scores.first <= 120 && self.scores.second <= 120
    }

    /// Everything except the two mutable turn fields is unchanged.
    pub open spec fn table_unchanged(self, post: GameRunner<D>) -> bool {
        &&& post.dealer == self.dealer
        &&& post.deck == self.deck
        &&& post.dealt_hands == self.dealt_hands
        &&& post.hands == self.hands
        &&& post.up_card == self.up_card
        &&& post.crib == self.crib
    }

    /// Nothing at all is unchanged but the state tag.
    pub open spec fn all_unchanged(self, post: GameRunner<D>) -> bool {
        &&& self.table_unchanged(post)
        &&& post.scores == self.scores
        &&& post.current_player == self.current_player
        &&& post.played_cards == self.played_cards
        &&& post.last_card_player == self.last_card_player
    }

    /// A fresh runner over the given deck: empty hands and crib, both
    /// scores at zero, the first seat dealing, ready to choose the
    /// dealer.
    pub fn new(deck: D) -> (r: GameRunner<D>)
        ensures
            r.wf(),
            r.state == GameState::ChooseDealer,
            r.dealer == PlayerPosition::First,
            r.current_player == PlayerPosition::Second,
            r.scores == (PerPlayer { first: 0u8, second: 0u8 }),
            r.hands.first@ =~= Seq::<Card>::empty(),
            r.hands.second@ =~= Seq::<Card>::empty(),
            r.dealt_hands.first@ =~= Seq::<Card>::empty(),
            r.dealt_hands.second@ =~= Seq::<Card>::empty(),
            r.crib@ =~= Seq::<Card>::empty(),
            r.played_cards@ =~= Seq::<Card>::empty(),
            r.up_card is None,
            r.deck == deck,
    {
        GameRunner {
            state: GameState::ChooseDealer,
            dealer: PlayerPosition::First,
            deck,
            dealt_hands: PerPlayer::new(Vec::new(), Vec::new()),
            hands: PerPlayer::new(Vec::new(), Vec::new()),
            scores: PerPlayer::new(0, 0),
            up_card: None,
            crib: Vec::new(),
            current_player: PlayerPosition::Second,
            played_cards: Vec::new(),
            last_card_player: None,
        }
    }

    /// A finished match is announced: the winner and both scores, each
    /// clamped to at most 121.
    pub open spec fn gate_step(self, post: GameRunner<D>, r: Option<PlayResult>) -> bool {
        &&& post.state == GameState::Done
        &&& self.table_unchanged(post)
        &&& post.scores == self.scores
        &&& post.current_player == self.current_player
        &&& post.played_cards == self.played_cards
        &&& (r matches Some(PlayResult::GameOver(fs)) && fs.winner == (if self.scores.first > 120 {
            PlayerPosition::First
        } else {
            PlayerPosition::Second
        }) && fs.scores.first as int == (if self.scores.first > 121 {
            121int
        } else {
            self.scores.first as int
        }) && fs.scores.second as int == (if self.scores.second > 121 {
            121int
        } else {
            self.scores.second as int
        }))
    }

    /// The dealer was cut for: the first undecided pair of cards from a
    /// fresh shuffle named the dealer, or the deck ran out of pairs
    /// while every draw tied and nothing changed but the shuffle.
    pub open spec fn choose_dealer_step(
        self,
        post: GameRunner<D>,
        r: (GameState, Option<PlayResult>),
    ) -> bool {
        &&& post.dealt_hands == self.dealt_hands
        &&& post.hands == self.hands
        &&& post.up_card == self.up_card
        &&& post.crib == self.crib
        &&& post.scores == self.scores
        &&& post.played_cards == self.played_cards
        &&& exists|s: Seq<Card>|
            {
                &&& #[trigger] s.to_multiset() == self.deck.stock()
                &&& (self.deck.replay() matches Some(t) ==> s == t)
                &&& match dealer_scan(s) {
                    None => {
                        &&& r.0 == GameState::ChooseDealer
                        &&& r.1 is None
                        &&& post.state == self.state
                        &&& post.dealer == self.dealer
                        &&& post.current_player == self.current_player
                    },
                    Some(pair) => {
                        &&& r.0 == GameState::DealCards
                        &&& post.state == GameState::DealCards
                        &&& post.dealer == dealer_of(pair.0, pair.1)
                        &&& post.current_player == position_after(post.dealer)
                        &&& (r.1 matches Some(PlayResult::DealerChosen(info)) && info.up_cards == (
                        PerPlayer { first: pair.0, second: pair.1 }) && info.dealer == post.dealer)
                    },
                }
            }
    }
    /// The hand was dealt: six cards to each seat off a fresh shuffle,
    /// snapshots kept for the count, and a first cut card turned. A
    /// stock under thirteen cards cannot serve a deal and is refused.
    pub open spec fn deal_step(self, post: GameRunner<D>, r: Option<PlayResult>) -> bool {
        &&& post.scores == self.scores
        &&& post.dealer == self.dealer
        &&& post.crib == self.crib
        &&& post.current_player == self.current_player
        &&& post.played_cards == self.played_cards
        &&& post.last_card_player == self.last_card_player
        &&& post.deck.stock() == self.deck.stock()
        &&& if self.deck.stock().len() < 13 {
            &&& r is None
            &&& post.hands == self.hands
            &&& post.dealt_hands == self.dealt_hands
            &&& post.up_card == self.up_card
            &&& post.state == self.state
        } else {
            exists|s: Seq<Card>|
                {
                    &&& #[trigger] s.to_multiset() == self.deck.stock()
                    &&& (self.deck.replay() matches Some(t) ==> s == t)
                    &&& post.hands.first@ == s.take(6)
                    &&& post.hands.second@ == s.skip(6).take(6)
                    &&& post.dealt_hands.first@ == s.take(6)
                    &&& post.dealt_hands.second@ == s.skip(6).take(6)
                    &&& post.up_card == Some(s[12])
                    &&& post.deck.contents() == s.skip(13)
                    &&& post.state == GameState::ChooseCrib
                    &&& (r matches Some(PlayResult::WaitingForCrib(d)) && d.dealer == self.dealer
                        && d.scores == self.scores && d.hands.first@ == s.take(6)
                        && d.hands.second@ == s.skip(6).take(6))
                }
        }
    }

    /// The crib was formed: each seat discarded two cards into it, the
    /// post-discard hands were snapshotted for the counts at the end of
    /// pegging, the cut card was turned, and a jack cut scored the
    /// dealer two at once. Hands that are not distinct card sets, or an
    /// empty deck, are refused.
    pub open spec fn crib_step(self, post: GameRunner<D>, r: Option<PlayResult>) -> bool {
        &&& post.dealer == self.dealer
        &&& post.played_cards == self.played_cards
        &&& post.current_player == self.current_player
        &&& post.last_card_player == self.last_card_player
        &&& post.deck.stock() == self.deck.stock()
        &&& if !(self.hands.first@.no_duplicates() && self.hands.second@.no_duplicates())
            || self.deck.contents().len() < 1 {
            &&& r is None
            &&& post.dealt_hands == self.dealt_hands
            &&& post.hands == self.hands
            &&& post.crib == self.crib
            &&& post.up_card == self.up_card
            &&& post.scores == self.scores
            &&& post.state == self.state
            &&& post.deck == self.deck
        } else {
            &&& exists|p1: Seq<Card>, p2: Seq<Card>|
                {
                    &&& p1.len() == 2
                    &&& p2.len() == 2
                    &&& #[trigger] post.crib@ == p1 + p2
                    &&& post.hands.first@.to_multiset().add(p1.to_multiset())
                        == self.hands.first@.to_multiset()
                    &&& post.hands.second@.to_multiset().add(p2.to_multiset())
                        == self.hands.second@.to_multiset()
                }
            &&& post.hands.first@.len() == self.hands.first@.len() - 2
            &&& post.hands.second@.len() == self.hands.second@.len() - 2
            &&& post.dealt_hands.first@ == post.hands.first@
            &&& post.dealt_hands.second@ == post.hands.second@
            &&& post.up_card == Some(self.deck.contents()[0])
            &&& post.deck.contents() == self.deck.contents().skip(1)
            &&& {
                let nibs = self.deck.contents()[0].rank == Rank::Jack;
                &&& (nibs ==> post.scores.of(self.dealer) as int == (if self.scores.of(self.dealer)
                    + 2 >= 121 {
                    121int
                } else {
                    self.scores.of(self.dealer) + 2
                }))
                &&& (!nibs ==> post.scores.of(self.dealer) == self.scores.of(self.dealer))
                &&& post.scores.of(position_after(self.dealer)) == self.scores.of(
                    position_after(self.dealer),
                )
                &&& post.state == GameState::PrepareForPlay
                &&& (r matches Some(PlayResult::AnnounceUpCard(u)) && u.dealer == self.dealer
                    && u.up_card == self.deck.contents()[0] && u.is_nibs == nibs && u.scores
                    == post.scores)
            }
        }
    }

    /// Pegging began: the table was cleared and the current seat is up.
    pub open spec fn prepare_step(self, post: GameRunner<D>, r: Option<PlayResult>) -> bool {
        &&& self.table_unchanged(post)
        &&& post.scores == self.scores
        &&& post.current_player == self.current_player
        &&& post.last_card_player == self.last_card_player
        &&& post.played_cards@ =~= Seq::<Card>::empty()
        &&& post.state == GameState::WaitingForPlay
        &&& (r matches Some(PlayResult::ReadyForPlay(p)) && p.played_cards@ =~= Seq::<
            Card,
        >::empty() && p.hands.first@ == self.hands.first@ && p.hands.second@
            == self.hands.second@ && p.scores == self.scores && p.current_player
            == self.current_player)
    }

    /// One card was laid: the player's choice left the hand and joined
    /// the table; any points were scored and await acknowledgement,
    /// else the turn passed, with a go if the other seat cannot play.
    /// A hand that is not a distinct card set is refused.
    pub open spec fn play_step(self, post: GameRunner<D>, r: Option<PlayResult>) -> bool {
        &&& post.dealer == self.dealer
        &&& post.deck == self.deck
        &&& post.dealt_hands == self.dealt_hands
        &&& post.up_card == self.up_card
        &&& post.crib == self.crib
        &&& if !self.hands.of(self.current_player)@.no_duplicates() {
            &&& r is None
            &&& post.hands == self.hands
            &&& post.played_cards == self.played_cards
            &&& post.scores == self.scores
            &&& post.state == self.state
            &&& post.current_player == self.current_player
            &&& post.last_card_player == self.last_card_player
        } else {
            exists|choice: Card|
                {
                    &&& self.hands.of(self.current_player)@.contains(choice)
                    &&& rank_value(choice.rank) + pip_sum(self.played_cards@) <= 31
                    &&& #[trigger] post.played_cards@ == self.played_cards@.push(choice)
                    &&& post.hands.of(self.current_player)@ == self.hands.of(
                        self.current_player,
                    )@.remove_value(choice)
                    &&& post.hands.of(position_after(self.current_player)) == self.hands.of(
                        position_after(self.current_player),
                    )
                    &&& post.last_card_player == Some(self.current_player)
                    &&& {
                        let events = peg_score(self.played_cards@.push(choice));
                        if events.len() > 0 {
                            &&& post.current_player == self.current_player
                            &&& post.scores.of(self.current_player) as int == (if self.scores.of(
                                self.current_player,
                            ) + peg_total_value(events) >= 121 {
                                121int
                            } else {
                                self.scores.of(self.current_player) + peg_total_value(events)
                            })
                            &&& post.scores.of(position_after(self.current_player))
                                == self.scores.of(position_after(self.current_player))
                            &&& post.state == GameState::WaitingForAcknowledgement(
                                AcknowledgementType::Scoring,
                            )
                            &&& (r matches Some(PlayResult::AnnounceScoring(si)) && peg_views(
                                si.scorings@,
                            ) == events && si.current_player == self.current_player && si.scores
                                == post.scores && si.played_cards@ == post.played_cards@
                                && si.hands.first@ == post.hands.first@ && si.hands.second@
                                == post.hands.second@)
                        } else {
                            &&& post.scores == self.scores
                            &&& post.current_player == position_after(self.current_player)
                            &&& if can_play(
                                post.hands.of(position_after(self.current_player))@,
                                pip_sum(post.played_cards@),
                            ) {
                                post.state == GameState::WaitingForPlay && (r matches Some(
                                    PlayResult::ReadyForPlay(p),
                                ) && p.current_player == position_after(self.current_player)
                                    && p.played_cards@ == post.played_cards@ && p.hands.first@
                                    == post.hands.first@ && p.hands.second@ == post.hands.second@
                                    && p.scores == post.scores)
                            } else {
                                post.state == GameState::WaitingForAcknowledgement(
                                    AcknowledgementType::FirstGo,
                                ) && (r matches Some(PlayResult::AnnounceGo(p))
                                    && p.current_player == position_after(self.current_player)
                                    && p.played_cards@ == post.played_cards@ && p.hands.first@
                                    == post.hands.first@ && p.hands.second@ == post.hands.second@
                                    && p.scores == post.scores)
                            }
                        }
                    }
                }
        }
    }

    /// The second go closed the street: the last seat to lay a card
    /// scored one for last card, and the award awaits acknowledgement.
    pub open spec fn ack_second_step(self, post: GameRunner<D>, r: Option<PlayResult>) -> bool {
        &&& self.table_unchanged(post)
        &&& post.current_player == self.current_player
        &&& post.played_cards@ =~= Seq::<Card>::empty()
        &&& post.scores.of(self.current_player) as int == (if self.scores.of(self.current_player)
            + 1 >= 121 {
            121int
        } else {
            self.scores.of(self.current_player) + 1
        })
        &&& post.scores.of(position_after(self.current_player)) == self.scores.of(
            position_after(self.current_player),
        )
        &&& post.state == GameState::WaitingForAcknowledgement(AcknowledgementType::Scoring)
        &&& (r matches Some(PlayResult::AnnounceScoring(si)) && peg_views(si.scorings@) =~= seq![
            crate::scoring::PegEvent::LastCard,
        ] && si.current_player == self.current_player && si.scores == post.scores
            && si.played_cards@ =~= Seq::<Card>::empty() && si.hands.first@ == self.hands.first@
            && si.hands.second@ == self.hands.second@)
    }

    /// The acknowledgement was taken: with both hands empty the pone's
    /// hand is counted — a pone snapshot that is not a four-card hand
    /// with a cut card is refused — and otherwise the street continues:
    /// a table at thirty-one is cleared, the turn passes, and the next
    /// seat either plays or says go.
    pub open spec fn ack_other_step(
        self,
        ack: AcknowledgementType,
        post: GameRunner<D>,
        r: Option<PlayResult>,
    ) -> bool {
        &&& post.dealer == self.dealer
        &&& post.deck == self.deck
        &&& post.dealt_hands == self.dealt_hands
        &&& post.up_card == self.up_card
        &&& post.crib == self.crib
        &&& post.hands == self.hands
        &&& post.last_card_player == self.last_card_player
        &&& if self.hands.first@.len() == 0 && self.hands.second@.len() == 0 {
            if self.dealt_hands.of(position_after(self.dealer))@.len() == 4 && self.up_card
                is Some {
                let pone = position_after(self.dealer);
                let events = hand_score(
                    self.dealt_hands.of(pone)@,
                    self.up_card.unwrap(),
                    false,
                );
                &&& post.current_player == pone
                &&& post.played_cards == self.played_cards
                &&& post.scores.of(pone) as int == (if self.scores.of(pone) + hand_total_value(
                    events,
                ) >= 121 {
                    121int
                } else {
                    self.scores.of(pone) + hand_total_value(events)
                })
                &&& post.scores.of(self.dealer) == self.scores.of(self.dealer)
                &&& post.state == GameState::ScoreHand
                &&& (r matches Some(PlayResult::AnnounceHandScore(hi)) && hand_views(hi.scorings@)
                    == events && hi.current_player == pone && hi.scores == post.scores)
            } else {
                &&& r is None
                &&& post.scores == self.scores
                &&& post.current_player == self.current_player
                &&& post.played_cards == self.played_cards
                &&& post.state == self.state
            }
        } else {
            &&& post.scores == self.scores
            &&& post.current_player == position_after(self.current_player)
            &&& (pip_sum(self.played_cards@) == 31 ==> post.played_cards@ =~= Seq::<
                Card,
            >::empty())
            &&& (pip_sum(self.played_cards@) != 31 ==> post.played_cards == self.played_cards)
            &&& if can_play(
                self.hands.of(position_after(self.current_player))@,
                pip_sum(post.played_cards@),
            ) {
                post.state == GameState::WaitingForPlay && (r matches Some(
                    PlayResult::ReadyForPlay(p),
                ) && p.current_player == position_after(self.current_player) && p.played_cards@
                    == post.played_cards@ && p.hands.first@ == self.hands.first@
                    && p.hands.second@ == self.hands.second@ && p.scores == self.scores)
            } else {
                post.state == GameState::WaitingForAcknowledgement(
                    if ack == AcknowledgementType::FirstGo {
                        AcknowledgementType::SecondGo
                    } else {
                        AcknowledgementType::FirstGo
                    },
                ) && (r matches Some(PlayResult::AnnounceGo(p)) && p.current_player
                    == position_after(self.current_player) && p.played_cards@
                    == post.played_cards@ && p.hands.first@ == self.hands.first@
                    && p.hands.second@ == self.hands.second@ && p.scores == self.scores)
            }
        }
    }

    /// The dealer's hand was counted — a dealer snapshot that is not a
    /// four-card hand with a cut card is refused.
    pub open spec fn score_hand_step(self, post: GameRunner<D>, r: Option<PlayResult>) -> bool {
        &&& self.table_unchanged(post)
        &&& post.played_cards == self.played_cards
        &&& post.current_player == self.current_player
        &&& post.last_card_player == self.last_card_player
        &&& if self.dealt_hands.of(self.dealer)@.len() == 4 && self.up_card is Some {
            let events = hand_score(
                self.dealt_hands.of(self.dealer)@,
                self.up_card.unwrap(),
                false,
            );
            &&& post.scores.of(self.dealer) as int == (if self.scores.of(self.dealer)
                + hand_total_value(events) >= 121 {
                121int
            } else {
                self.scores.of(self.dealer) + hand_total_value(events)
            })
            &&& post.scores.of(position_after(self.dealer)) == self.scores.of(
                position_after(self.dealer),
            )
            &&& post.state == GameState::ScoreDealer
            &&& (r matches Some(PlayResult::AnnounceDealerScore(hi)) && hand_views(hi.scorings@)
                == events && hi.current_player == self.dealer && hi.scores == post.scores)
        } else {
            &&& r is None
            &&& post.scores == self.scores
            &&& post.state == self.state
        }
    }

    /// The crib was counted for the dealer, under crib rules — a crib
    /// that is not four cards with a cut card is refused.
    pub open spec fn score_dealer_step(self, post: GameRunner<D>, r: Option<PlayResult>) -> bool {
        &&& self.table_unchanged(post)
        &&& post.played_cards == self.played_cards
        &&& post.current_player == self.current_player
        &&& post.last_card_player == self.last_card_player
        &&& if self.crib@.len() == 4 && self.up_card is Some {
            let events = hand_score(self.crib@, self.up_card.unwrap(), true);
            &&& post.scores.of(self.dealer) as int == (if self.scores.of(self.dealer)
                + hand_total_value(events) >= 121 {
                121int
            } else {
                self.scores.of(self.dealer) + hand_total_value(events)
            })
            &&& post.scores.of(position_after(self.dealer)) == self.scores.of(
                position_after(self.dealer),
            )
            &&& post.state == GameState::ScoreCrib
            &&& (r matches Some(PlayResult::AnnounceCribScore(hi)) && hand_views(hi.scorings@)
                == events && hi.current_player == self.dealer && hi.scores == post.scores)
        } else {
            &&& r is None
            &&& post.scores == self.scores
            &&& post.state == self.state
        }
    }

    /// The deal rotated: the other seat deals next, and a new deal
    /// begins.
    pub open spec fn score_crib_step(self, post: GameRunner<D>, r: Option<PlayResult>) -> bool {
        &&& post.deck == self.deck
        &&& post.hands == self.hands
        &&& post.dealt_hands == self.dealt_hands
        &&& post.up_card == self.up_card
        &&& post.crib == self.crib
        &&& post.scores == self.scores
        &&& post.played_cards == self.played_cards
        &&& post.last_card_player == self.last_card_player
        &&& post.dealer == position_after(self.dealer)
        &&& post.current_player == position_after(post.dealer)
        &&& post.state == GameState::DealCards
        &&& (r matches Some(PlayResult::NextHand(ci)) && ci.next_dealer == position_after(
            self.dealer,
        ) && ci.scores == self.scores)
    }

    /// Iterates the game: each call takes exactly one transition and
    /// returns a result describing the step, or nothing where a step
    /// could not be taken. A match already won is announced again and
    /// again; otherwise the transition taken is the one the current
    /// state calls for, exactly as each step predicate states.
    #[verifier::rlimit(100)]
    #[verifier::spinoff_prover]
    pub fn do_next_play<P: KnowsCribbage, Q: KnowsCribbage>(
        &mut self,
        first: &mut P,
        second: &mut Q,
    ) -> (r: Option<PlayResult>)
        requires
            old(self).wf(),
        ensures
            final(self).wf(),
            !old(self).scores_live() ==> old(self).gate_step(*final(self), r),
            old(self).scores_live() ==> match old(self).state {
                GameState::ChooseDealer => old(self).choose_dealer_step(
                    *final(self),
                    (final(self).state, r),
                ),
                GameState::DealCards => old(self).deal_step(*final(self), r),
                GameState::ChooseCrib => old(self).crib_step(*final(self), r),
                GameState::PrepareForPlay => old(self).prepare_step(*final(self), r),
                GameState::WaitingForPlay => old(self).play_step(*final(self), r),
                GameState::WaitingForAcknowledgement(ack) => if ack
                    == AcknowledgementType::SecondGo {
                    old(self).ack_second_step(*final(self), r)
                } else {
                    old(self).ack_other_step(ack, *final(self), r)
                },
                GameState::ScoreHand => old(self).score_hand_step(*final(self), r),
                GameState::ScoreDealer => old(self).score_dealer_step(*final(self), r),
                GameState::ScoreCrib => old(self).score_crib_step(*final(self), r),
                GameState::Done => r is None && old(self).all_unchanged(*final(self))
                    && final(self).state == GameState::Done,
            },
    {
        broadcast use vstd::seq_lib::group_to_multiset_ensures;

        // A decided match is only ever announced.
        if self.scores.first > 120 || self.scores.second > 120 {
            let winner = if self.scores.first > 120 {
                PlayerPosition::First
            } else {
                PlayerPosition::Second
            };
            let clamped_first: u8 = if self.scores.first > 121 {
                121
            } else {
                self.scores.first
            };
            let clamped_second: u8 = if self.scores.second > 121 {
                121
            } else {
                self.scores.second
            };
            self.state = GameState::Done;
            return Some(
                PlayResult::GameOver(
                    FinalScores { winner, scores: PerPlayer::new(clamped_first, clamped_second) },
                ),
            );
        }
        match self.state {
            GameState::ChooseDealer => {
                let (_next, result) = self.choose_dealer();
                result
            },
            GameState::DealCards => {
                self.deck.shuffle();
                let ghost shuffled = self.deck.contents();
                proof {
                    assert(shuffled.to_multiset().len() == shuffled.len());
                }
                if self.deck.remaining() < 13 {
                    return None;
                }
                let h1 = self.deck.deal(6);
                let h2 = self.deck.deal(6);
                let cut = self.deck.deal(1);
                proof {
                    assert(cut@[0] == shuffled.skip(6).skip(6)[0]);
                    assert(shuffled.skip(6).skip(6) =~= shuffled.skip(12));
                    assert(shuffled.skip(12)[0] == shuffled[12]);
                    assert(shuffled.skip(6).skip(6).skip(1) =~= shuffled.skip(13));
                }
                self.dealt_hands = PerPlayer::new(h1.clone(), h2.clone());
                self.hands = PerPlayer::new(h1, h2);
                self.up_card = Some(cut[0]);
                self.state = GameState::ChooseCrib;
                let next_result = Deal {
                    dealer: self.dealer,
                    scores: clone_scores(&self.scores),
                    hands: clone_hands(&self.hands),
                };
                Some(PlayResult::WaitingForCrib(next_result))
            },
            GameState::ChooseCrib => {
                if !cards_distinct(&self.hands.first) || !cards_distinct(&self.hands.second) {
                    return None;
                }
                if self.deck.remaining() < 1 {
                    return None;
                }
                let mut crib: Vec<Card> = Vec::new();

                let picks1 = first.choose_crib(&self.hands.first);
                let p10 = picks1[0];
                let p11 = picks1[1];
                proof {
                    assert(old(self).hands.first@.to_multiset().count(p11) > 0);
                }
                remove_card(&mut self.hands.first, p10);
                proof {
                    assert(self.hands.first@.to_multiset().count(p11) == old(
                        self,
                    ).hands.first@.to_multiset().count(p11));
                    assert(self.hands.first@.contains(p11));
                }
                remove_card(&mut self.hands.first, p11);
                crib.push(p10);
                crib.push(p11);

                let picks2 = second.choose_crib(&self.hands.second);
                let p20 = picks2[0];
                let p21 = picks2[1];
                proof {
                    assert(old(self).hands.second@.to_multiset().count(p21) > 0);
                }
                remove_card(&mut self.hands.second, p20);
                proof {
                    assert(self.hands.second@.to_multiset().count(p21) == old(
                        self,
                    ).hands.second@.to_multiset().count(p21));
                    assert(self.hands.second@.contains(p21));
                }
                remove_card(&mut self.hands.second, p21);
                crib.push(p20);
                crib.push(p21);

                self.crib = crib;
                self.dealt_hands = clone_hands(&self.hands);
                proof {
                    assert(self.crib@ =~= seq![p10, p11] + seq![p20, p21]);
                    assert(seq![p10, p11].to_multiset() =~= Multiset::<Card>::empty().insert(
                        p10,
                    ).insert(p11)) by {
                        assert(seq![p10, p11] =~= Seq::<Card>::empty().push(p10).push(p11));
                        assert(Seq::<Card>::empty().to_multiset() =~= Multiset::<Card>::empty());
                    }
                    assert(seq![p20, p21].to_multiset() =~= Multiset::<Card>::empty().insert(
                        p20,
                    ).insert(p21)) by {
                        assert(seq![p20, p21] =~= Seq::<Card>::empty().push(p20).push(p21));
                        assert(Seq::<Card>::empty().to_multiset() =~= Multiset::<Card>::empty());
                    }
                    assert(self.hands.first@.to_multiset().add(seq![p10, p11].to_multiset()) =~= old(
                        self,
                    ).hands.first@.to_multiset());
                    assert(self.hands.second@.to_multiset().add(seq![p20, p21].to_multiset())
                        =~= old(self).hands.second@.to_multiset());
                }
                let cut = self.deck.deal(1);
                self.up_card = Some(cut[0]);
                let is_nibs = cut[0].rank.ordinal() == 11;
                proof {
                    lemma_rank_ordinal_injective(cut@[0].rank, Rank::Jack);
                }
                if is_nibs {
                    let _won = award_points(&mut self.scores, self.dealer, 2);
                }
                self.state = GameState::PrepareForPlay;
                let next_result = UpCardInfo {
                    dealer: self.dealer,
                    scores: clone_scores(&self.scores),
                    up_card: cut[0],
                    is_nibs,
                };
                Some(PlayResult::AnnounceUpCard(next_result))
            },
            GameState::PrepareForPlay => {
                self.played_cards = Vec::new();
                proof {
                    let hand = self.hands.of(self.current_player)@;
                    assert(rank_value(hand[0].rank) <= 10);
                    assert(can_play(hand, pip_sum(self.played_cards@)));
                }
                self.state = GameState::WaitingForPlay;
                let next_result = PlayInfo {
                    played_cards: Vec::new(),
                    hands: clone_hands(&self.hands),
                    scores: clone_scores(&self.scores),
                    current_player: self.current_player,
                };
                Some(PlayResult::ReadyForPlay(next_result))
            },
            GameState::WaitingForPlay => {
                let current = self.current_player;
                let distinct = match current {
                    PlayerPosition::First => cards_distinct(&self.hands.first),
                    PlayerPosition::Second => cards_distinct(&self.hands.second),
                };
                if !distinct {
                    return None;
                }
                let total = total_of(&self.played_cards);
                let choice = match current {
                    PlayerPosition::First => first.play(&self.hands.first, total),
                    PlayerPosition::Second => second.play(&self.hands.second, total),
                };
                match current {
                    PlayerPosition::First => remove_card(&mut self.hands.first, choice),
                    PlayerPosition::Second => remove_card(&mut self.hands.second, choice),
                }
                self.played_cards.push(choice);
                self.last_card_player = Some(current);
                proof {
                    assert(self.played_cards@.drop_last() =~= old(self).played_cards@);
                    assert(pip_sum(self.played_cards@) == pip_sum(old(self).played_cards@)
                        + rank_value(choice.rank));
                    lemma_peg_score_points(self.played_cards@);
                }
                let scorings = score_pegging(self.played_cards.clone());
                if scorings.len() > 0 {
                    let pts = pegging_points(&scorings);
                    let _won = award_points(&mut self.scores, current, pts);
                    self.state = GameState::WaitingForAcknowledgement(AcknowledgementType::Scoring);
                    let next_result = ScoreInfo {
                        played_cards: self.played_cards.clone(),
                        hands: clone_hands(&self.hands),
                        scores: clone_scores(&self.scores),
                        current_player: current,
                        scorings,
                    };
                    Some(PlayResult::AnnounceScoring(next_result))
                } else {
                    self.current_player = current.next();
                    let next_result = PlayInfo {
                        played_cards: self.played_cards.clone(),
                        hands: clone_hands(&self.hands),
                        scores: clone_scores(&self.scores),
                        current_player: self.current_player,
                    };
                    let playable = match self.current_player {
                        PlayerPosition::First => has_play(&self.hands.first, &self.played_cards),
                        PlayerPosition::Second => has_play(&self.hands.second, &self.played_cards),
                    };
                    if playable {
                        self.state = GameState::WaitingForPlay;
                        Some(PlayResult::ReadyForPlay(next_result))
                    } else {
                        self.state = GameState::WaitingForAcknowledgement(
                            AcknowledgementType::FirstGo,
                        );
                        Some(PlayResult::AnnounceGo(next_result))
                    }
                }
            },
            GameState::WaitingForAcknowledgement(ack_type) => match ack_type {
                AcknowledgementType::SecondGo => {
                    self.played_cards = Vec::new();
                    let scorings = vec![PeggingScorings::LastCard];
                    let _won = award_points(&mut self.scores, self.current_player, 1);
                    self.state = GameState::WaitingForAcknowledgement(AcknowledgementType::Scoring);
                    proof {
                        assert(peg_views(scorings@) =~= seq![crate::scoring::PegEvent::LastCard]);
                    }
                    let next_result = ScoreInfo {
                        played_cards: Vec::new(),
                        hands: clone_hands(&self.hands),
                        scores: clone_scores(&self.scores),
                        current_player: self.current_player,
                        scorings,
                    };
                    Some(PlayResult::AnnounceScoring(next_result))
                },
                _ => {
                    let first_empty = self.hands.first.len() == 0;
                    let second_empty = self.hands.second.len() == 0;
                    if first_empty && second_empty {
                        let pone = self.dealer.next();
                        let pone_len = self.dealt_hands.get(pone).len();
                        let have_cut = self.up_card.is_some();
                        if pone_len != 4 || !have_cut {
                            return None;
                        }
                        let cut = self.up_card.unwrap();
                        proof {
                            lemma_hand_score_points(self.dealt_hands.of(pone)@, cut, false);
                        }
                        let scorings = score_hand(self.dealt_hands.get(pone), cut);
                        let pts = hand_points(&scorings);
                        let _won = award_points(&mut self.scores, pone, pts);
                        self.current_player = pone;
                        self.state = GameState::ScoreHand;
                        let hand_info = HandInfo {
                            scores: clone_scores(&self.scores),
                            current_player: pone,
                            scorings,
                        };
                        Some(PlayResult::AnnounceHandScore(hand_info))
                    } else {
                        let total = total_of(&self.played_cards);
                        if total == 31 {
                            self.played_cards = Vec::new();
                        }
                        self.current_player = self.current_player.next();
                        let next_result = PlayInfo {
                            played_cards: self.played_cards.clone(),
                            hands: clone_hands(&self.hands),
                            scores: clone_scores(&self.scores),
                            current_player: self.current_player,
                        };
                        let playable = match self.current_player {
                            PlayerPosition::First => has_play(
                                &self.hands.first,
                                &self.played_cards,
                            ),
                            PlayerPosition::Second => has_play(
                                &self.hands.second,
                                &self.played_cards,
                            ),
                        };
                        if playable {
                            self.state = GameState::WaitingForPlay;
                            Some(PlayResult::ReadyForPlay(next_result))
                        } else {
                            let next_type = match ack_type {
                                AcknowledgementType::FirstGo => AcknowledgementType::SecondGo,
                                _ => AcknowledgementType::FirstGo,
                            };
                            self.state = GameState::WaitingForAcknowledgement(next_type);
                            Some(PlayResult::AnnounceGo(next_result))
                        }
                    }
                },
            },
            GameState::ScoreHand => {
                let dealer = self.dealer;
                let dealer_len = self.dealt_hands.get(dealer).len();
                let have_cut = self.up_card.is_some();
                if dealer_len != 4 || !have_cut {
                    return None;
                }
                let cut = self.up_card.unwrap();
                proof {
                    lemma_hand_score_points(self.dealt_hands.of(dealer)@, cut, false);
                }
                let scorings = score_hand(self.dealt_hands.get(dealer), cut);
                let pts = hand_points(&scorings);
                let _won = award_points(&mut self.scores, dealer, pts);
                self.state = GameState::ScoreDealer;
                let hand_info = HandInfo {
                    scores: clone_scores(&self.scores),
                    current_player: dealer,
                    scorings,
                };
                Some(PlayResult::AnnounceDealerScore(hand_info))
            },
            GameState::ScoreDealer => {
                let dealer = self.dealer;
                let crib_len = self.crib.len();
                let have_cut = self.up_card.is_some();
                if crib_len != 4 || !have_cut {
                    return None;
                }
                let cut = self.up_card.unwrap();
                proof {
                    lemma_hand_score_points(self.crib@, cut, true);
                }
                let scorings = score_crib(&self.crib, cut);
                let pts = hand_points(&scorings);
                let _won = award_points(&mut self.scores, dealer, pts);
                self.state = GameState::ScoreCrib;
                let hand_info = HandInfo {
                    scores: clone_scores(&self.scores),
                    current_player: dealer,
                    scorings,
                };
                Some(PlayResult::AnnounceCribScore(hand_info))
            },
            GameState::ScoreCrib => {
                self.dealer = self.dealer.next();
                self.current_player = self.dealer.next();
                self.state = GameState::DealCards;
                let current_info = CurrentScoreInfo {
                    scores: clone_scores(&self.scores),
                    next_dealer: self.dealer,
                };
                Some(PlayResult::NextHand(current_info))
            },
            GameState::Done => None,
        }
    }
}

} // verus!
