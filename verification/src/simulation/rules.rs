//! The dealer-selection rule.

use vstd::prelude::*;
use crate::deck::{Card, Dealable};
use crate::game::{dealer_of, dealer_scan, lemma_rank_ordinal_injective};
use crate::player::{PerPlayer, PlayerPosition};
use crate::simulation::runner::{GameRunner, GameState, CutInfo, PlayResult};

verus! {

impl<D: Dealable> GameRunner<D> {
    /// Implements the rule that chooses a dealer.
    ///
    /// This shuffles the deck, takes two cards from it, and uses those
    /// to determine the dealer: the lowest rank deals first. A rank tie
    /// is never resolved — the pair is discarded and two new cards are
    /// drawn. If the deck runs out of pairs while every draw tied,
    /// nothing is decided and the call yields no result; calling again
    /// redraws from a fresh shuffle.
    pub fn choose_dealer(&mut self) -> (r: (GameState, Option<PlayResult>))
        requires
            old(self).wf(),
        ensures
            final(self).wf(),
            old(self).choose_dealer_step(*final(self), r),
            final(self).deck.stock() == old(self).deck.stock(),
    {
        self.deck.shuffle();
        let ghost shuffled = self.deck.contents();
        loop
            invariant
                self.deck.stock() == old(self).deck.stock(),
                self.deck.replay() == old(self).deck.replay(),
                shuffled.to_multiset() == old(self).deck.stock(),
                old(self).deck.replay() matches Some(t) ==> shuffled == t,
                self.state == old(self).state,
                self.dealer == old(self).dealer,
                self.dealt_hands == old(self).dealt_hands,
                self.hands == old(self).hands,
                self.up_card == old(self).up_card,
                self.crib == old(self).crib,
                self.scores == old(self).scores,
                self.played_cards == old(self).played_cards,
                self.current_player == old(self).current_player,
                self.last_card_player == old(self).last_card_player,
                old(self).wf(),
                dealer_scan(shuffled) == dealer_scan(self.deck.contents()),
            decreases self.deck.contents().len(),
        {
            if self.deck.remaining() < 2 {
                proof {
                    assert(dealer_scan(self.deck.contents()) is None);
                }
                return (GameState::ChooseDealer, None);
            }
            let ghost before = self.deck.contents();
            let cards = self.deck.deal(2);
            proof {
                assert(cards@[0] == before[0] && cards@[1] == before[1]);
            }
            if cards[0].rank.ordinal() != cards[1].rank.ordinal() {
                proof {
                    lemma_rank_ordinal_injective(cards@[0].rank, cards@[1].rank);
                    assert(dealer_scan(before) == Some((before[0], before[1])));
                }
                let dealer = if cards[0].rank.ordinal() < cards[1].rank.ordinal() {
                    PlayerPosition::First
                } else {
                    PlayerPosition::Second
                };
                self.dealer = dealer;
                self.current_player = dealer.next();
                self.state = GameState::DealCards;
                let result = CutInfo { up_cards: PerPlayer::new(cards[0], cards[1]), dealer };
                return (GameState::DealCards, Some(PlayResult::DealerChosen(result)));
            }
            proof {
                lemma_rank_ordinal_injective(cards@[0].rank, cards@[1].rank);
                assert(before[0].rank == before[1].rank);
                assert(dealer_scan(before) == dealer_scan(before.skip(2)));
            }
        }
    }
}

} // verus!
