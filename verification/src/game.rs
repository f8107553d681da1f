//! The game state machine: one rule application per phase, from dealer
//! selection through pegging to the hand count, with the win at 121
//! checked after every award.

use vstd::prelude::*;
use vstd::multiset::Multiset;
use crate::deck::{Card, Deck, Rank, rank_ordinal, rank_value};
use crate::player::{
    KnowsCribbage,
    PerPlayer,
    PlayerPosition,
    can_play,
    position_after,
    remove_card,
};
use crate::scoring::{
    HandScorings,
    award_points,
    hand_points,
    hand_score,
    hand_total_value,
    hand_views,
    lemma_hand_score_points,
    lemma_peg_score_points,
    peg_score,
    peg_total_value,
    pegging_points,
    pip_sum,
    score_hand,
    score_pegging,
    total_of,
};

verus! {

/// The phase the match is in; each phase has one rule that applies to
/// it.
#[derive(Clone, Copy, Debug, PartialEq, Eq, Structural)]
pub enum GameState {
    New,
    ReadyToDeal,
    WaitingForCrib,
    TurningUpCard,
    Pegging,
    GameOver,
    AnnouncingFirstGo,
    AnnouncingSecondGo,
    ScoringLastCard,
    ScoringDealer,
}

/// Everything a match owns: the deck, both hands and their dealt
/// snapshots, the crib, the running scores, and whose turn it is.
pub struct GameComponents {
    pub deck: Deck,
    pub hands: PerPlayer<Vec<Card>>,
    pub dealt: PerPlayer<Vec<Card>>,
    pub scores: PerPlayer<u8>,
    pub dealer: PlayerPosition,
    pub crib: Vec<Card>,
    pub played: Vec<Card>,
    pub up_card: Card,
    pub current_player: PlayerPosition,
}

impl GameComponents {
    /// A fresh match: a full deck, empty hands and crib, both scores at
    /// zero, the first seat dealing.
    pub fn new() -> (c: GameComponents)
        ensures
            c.deck.wf(),
            c.deck.stacked_with() is None,
            c.hands.first@ =~= Seq::<Card>::empty(),
            c.hands.second@ =~= Seq::<Card>::empty(),
            c.dealt.first@ =~= Seq::<Card>::empty(),
            c.dealt.second@ =~= Seq::<Card>::empty(),
            c.scores == (PerPlayer { first: 0u8, second: 0u8 }),
            c.dealer == PlayerPosition::First,
            c.crib@ =~= Seq::<Card>::empty(),
            c.played@ =~= Seq::<Card>::empty(),
            c.current_player == PlayerPosition::First,
    {
        GameComponents {
            deck: Deck::new(),
            hands: PerPlayer::new(Vec::new(), Vec::new()),
            dealt: PerPlayer::new(Vec::new(), Vec::new()),
            scores: PerPlayer::new(0, 0),
            dealer: PlayerPosition::First,
            crib: Vec::new(),
            played: Vec::new(),
            up_card: Card { rank: Rank::Ace, suit: crate::deck::Suit::Spades },
            current_player: PlayerPosition::First,
        }
    }
}

/// The cut that chose the dealer: each seat's drawn card, and who
/// deals.
pub struct DealerInfo {
    pub dealer: PlayerPosition,
    pub chosen_cards: PerPlayer<Card>,
}

impl DealerInfo {
    /// The cut decided: the seat that drew the lower rank deals.
    pub fn from(first_card: Card, second_card: Card) -> (info: DealerInfo)
        requires
            first_card.rank != second_card.rank,
        ensures
            info.dealer == dealer_of(first_card, second_card),
            info.chosen_cards == (PerPlayer { first: first_card, second: second_card }),
    {
        let dealer = if first_card.rank.ordinal() < second_card.rank.ordinal() {
            PlayerPosition::First
        } else {
            PlayerPosition::Second
        };
        DealerInfo { dealer, chosen_cards: PerPlayer::new(first_card, second_card) }
    }
}

/// The seat that deals, given the two drawn cards: the lower rank
/// deals first.
pub open spec fn dealer_of(first_card: Card, second_card: Card) -> PlayerPosition {
    if rank_ordinal(first_card.rank) < rank_ordinal(second_card.rank) {
        PlayerPosition::First
    } else {
        PlayerPosition::Second
    }
}

/// The deal announced: both hands, the dealer, the scores.
pub struct DealtInfo {
    pub hands: PerPlayer<Vec<Card>>,
    pub dealer: PlayerPosition,
    pub scores: PerPlayer<u8>,
}

/// The crib chosen: the post-discard hands, the dealer, the scores.
pub struct CribInfo {
    pub hands: PerPlayer<Vec<Card>>,
    pub dealer: PlayerPosition,
    pub scores: PerPlayer<u8>,
}

/// A pegging turn pending: hands, table, and whose play it is.
pub struct PeggingInfo {
    pub hands: PerPlayer<Vec<Card>>,
    pub dealer: PlayerPosition,
    pub scores: PerPlayer<u8>,
    pub up_card: Card,
    pub played: Vec<Card>,
    pub current_player: PlayerPosition,
}

/// A go announced: who had to pass, and the table as it stands.
pub struct GoInfo {
    pub hands: PerPlayer<Vec<Card>>,
    pub dealer: PlayerPosition,
    pub scores: PerPlayer<u8>,
    pub up_card: Card,
    pub played: Vec<Card>,
    pub caller: PlayerPosition,
}

/// The match decided: the winner and the final table.
pub struct GameResult {
    pub winner: PlayerPosition,
    pub scores: PerPlayer<u8>,
    pub up_card: Card,
    pub hands: PerPlayer<Vec<Card>>,
}

/// A hand counted: whose hand, the cards, the events, the scores.
pub struct ScoreInfo {
    pub player: PlayerPosition,
    pub hand: Vec<Card>,
    pub up_card: Card,
    pub scorings: Option<Vec<HandScorings>>,
    pub scores: PerPlayer<u8>,
}

/// What one rule application yielded.
pub enum PlayResult {
    DealerChosen(DealerInfo),
    CardsDealt(DealtInfo),
    CribChosen(CribInfo),
    WaitingForPlay(PeggingInfo),
    GameOver(GameResult),
    Go(GoInfo),
    WaitingForLastCardAcknowledgement(PeggingInfo),
    HandScore(ScoreInfo),
    Incomplete,
}

/// The first non-tied pair in a sequence of cut cards, scanning two at
/// a time; ties are never resolved, only redrawn past.
pub open spec fn dealer_scan(s: Seq<Card>) -> Option<(Card, Card)>
    decreases s.len(),
{
    if s.len() < 2 {
        None
    } else if s[0].rank != s[1].rank {
        Some((s[0], s[1]))
    } else {
        dealer_scan(s.skip(2))
    }
}

/// Whether the current player must say go: no card in the hand can be
/// laid without pushing the running total past thirty-one.
pub fn must_say_go(hand: &Vec<Card>, played: &Vec<Card>) -> (r: bool)
    requires
        pip_sum(played@) <= 255,
    ensures
        r == !can_play(hand@, pip_sum(played@)),
        r <==> (forall|i: int|
            0 <= i < hand@.len() ==> rank_value(#[trigger] hand@[i].rank) + pip_sum(played@) > 31),
{
    let total = total_of(played);
    let mut i: usize = 0;
    while i < hand.len()
        invariant
            i <= hand@.len(),
            total as int == pip_sum(played@),
            forall|k: int|
                0 <= k < i ==> rank_value(#[trigger] hand@[k].rank) + pip_sum(played@) > 31,
        decreases hand@.len() - i,
    {
        if hand[i].rank.value() as u16 + total as u16 <= 31 {
            proof {
                assert(rank_value(hand@[i as int].rank) + pip_sum(played@) <= 31);
            }
            return false;
        }
        i += 1;
    }
    true
}

/// Both hands, copied.
fn clone_hands(h: &PerPlayer<Vec<Card>>) -> (r: PerPlayer<Vec<Card>>)
    ensures
        r.first@ == h.first@,
        r.second@ == h.second@,
        r.of(PlayerPosition::First)@ == h.of(PlayerPosition::First)@,
        r.of(PlayerPosition::Second)@ == h.of(PlayerPosition::Second)@,
{
    PerPlayer::new(h.first.clone(), h.second.clone())
}

/// Both scores, copied.
fn clone_scores(s: &PerPlayer<u8>) -> (r: PerPlayer<u8>)
    ensures
        r == *s,
{
    let r = PerPlayer::new(s.first, s.second);
    proof {
        assert(r == *s);
    }
    r
}

/// The two rank ordinals differ exactly when the ranks differ.
pub proof fn lemma_rank_ordinal_injective(a: Rank, b: Rank)
    ensures
        (rank_ordinal(a) == rank_ordinal(b)) <==> (a == b),
{
}

/// Choose the dealer: reset both scores, shuffle, and draw two cards,
/// redrawing past every rank tie. If the deck runs out of pairs while
/// every draw tied, nothing is decided and the rule reports an
/// incomplete application; applying it again redraws from a fresh
/// shuffle.
pub fn apply_choose_dealer(c: &mut GameComponents) -> (r: (GameState, PlayResult))
    ensures
        final(c).deck.wf(),
        final(c).scores == (PerPlayer { first: 0u8, second: 0u8 }),
        final(c).dealer == old(c).dealer,
        final(c).hands == old(c).hands,
        final(c).dealt == old(c).dealt,
        final(c).crib == old(c).crib,
        final(c).played == old(c).played,
        final(c).current_player == old(c).current_player,
        final(c).deck.stacked_with() == old(c).deck.stacked_with(),
        final(c).deck.stock() == old(c).deck.stock(),
        exists|s: Seq<Card>|
            {
                &&& #[trigger] s.to_multiset() == old(c).deck.stock()
                &&& (old(c).deck.stacked_with() matches Some(t) ==> s == t)
                &&& match dealer_scan(s) {
                    None => r == (GameState::New, PlayResult::Incomplete),
                    Some(pair) => r.0 == GameState::ReadyToDeal && (r.1 matches
                    PlayResult::DealerChosen(info) && info.chosen_cards == (PerPlayer {
                        first: pair.0,
                        second: pair.1,
                    }) && info.dealer == dealer_of(pair.0, pair.1)),
                }
            },
{
    c.scores = PerPlayer::new(0, 0);
    c.deck.shuffle();
    let ghost shuffled = c.deck.contents();
    loop
        invariant
            c.deck.wf(),
            c.deck.stacked_with() == old(c).deck.stacked_with(),
            c.deck.stock() == old(c).deck.stock(),
            shuffled.to_multiset() == old(c).deck.stock(),
            old(c).deck.stacked_with() matches Some(t) ==> shuffled == t,
            c.scores == (PerPlayer { first: 0u8, second: 0u8 }),
            c.dealer == old(c).dealer,
            c.hands == old(c).hands,
            c.dealt == old(c).dealt,
            c.crib == old(c).crib,
            c.played == old(c).played,
            c.current_player == old(c).current_player,
            dealer_scan(shuffled) == dealer_scan(c.deck.contents()),
        decreases c.deck.contents().len(),
    {
        if c.deck.remaining() < 2 {
            proof {
                assert(dealer_scan(c.deck.contents()) is None);
            }
            return (GameState::New, PlayResult::Incomplete);
        }
        let ghost before = c.deck.contents();
        let cards = c.deck.deal(2);
        proof {
            assert(cards@[0] == before[0] && cards@[1] == before[1]);
        }
        if cards[0].rank.ordinal() != cards[1].rank.ordinal() {
            proof {
                lemma_rank_ordinal_injective(cards@[0].rank, cards@[1].rank);
                assert(dealer_scan(before) == Some((before[0], before[1])));
            }
            let info = DealerInfo::from(cards[0], cards[1]);
            return (GameState::ReadyToDeal, PlayResult::DealerChosen(info));
        }
        proof {
            lemma_rank_ordinal_injective(cards@[0].rank, cards@[1].rank);
            assert(before[0].rank == before[1].rank);
            assert(dealer_scan(before) == dealer_scan(before.skip(2)));
        }
    }
}

/// A pegging announcement for the table as it stands.
fn pegging_info(c: &GameComponents) -> (info: PeggingInfo)
    ensures
        info.hands.first@ == c.hands.first@,
        info.hands.second@ == c.hands.second@,
        info.dealer == c.dealer,
        info.scores == c.scores,
        info.up_card == c.up_card,
        info.played@ == c.played@,
        info.current_player == c.current_player,
{
    PeggingInfo {
        hands: clone_hands(&c.hands),
        dealer: c.dealer,
        scores: clone_scores(&c.scores),
        up_card: c.up_card,
        played: c.played.clone(),
        current_player: c.current_player,
    }
}

/// A go announcement by the given caller.
fn go_info(c: &GameComponents, caller: PlayerPosition) -> (info: GoInfo)
    ensures
        info.hands.first@ == c.hands.first@,
        info.hands.second@ == c.hands.second@,
        info.dealer == c.dealer,
        info.scores == c.scores,
        info.up_card == c.up_card,
        info.played@ == c.played@,
        info.caller == caller,
{
    GoInfo {
        hands: clone_hands(&c.hands),
        dealer: c.dealer,
        scores: clone_scores(&c.scores),
        up_card: c.up_card,
        played: c.played.clone(),
        caller,
    }
}

/// The final result, won by the given seat.
fn game_result(c: &GameComponents, winner: PlayerPosition) -> (res: GameResult)
    ensures
        res.winner == winner,
        res.scores == c.scores,
        res.up_card == c.up_card,
        res.hands.first@ == c.hands.first@,
        res.hands.second@ == c.hands.second@,
{
    GameResult {
        winner,
        scores: clone_scores(&c.scores),
        up_card: c.up_card,
        hands: clone_hands(&c.hands),
    }
}

/// Deal the hand: shuffle and give each seat six cards. A stock of
/// fewer than twelve cards cannot serve a deal; the rule then reports
/// an incomplete application and changes nothing but the shuffle.
pub fn apply_deal(c: &mut GameComponents) -> (r: (GameState, PlayResult))
    ensures
        final(c).deck.wf(),
        final(c).deck.stacked_with() == old(c).deck.stacked_with(),
        final(c).deck.stock() == old(c).deck.stock(),
        final(c).scores == old(c).scores,
        final(c).dealer == old(c).dealer,
        final(c).dealt == old(c).dealt,
        final(c).crib == old(c).crib,
        final(c).played == old(c).played,
        final(c).up_card == old(c).up_card,
        final(c).current_player == old(c).current_player,
        old(c).deck.stock().len() < 12 ==> r == (GameState::ReadyToDeal, PlayResult::Incomplete)
            && final(c).hands == old(c).hands,
        old(c).deck.stock().len() >= 12 ==> exists|s: Seq<Card>|
            {
                &&& #[trigger] s.to_multiset() == old(c).deck.stock()
                &&& (old(c).deck.stacked_with() matches Some(t) ==> s == t)
                &&& final(c).hands.first@ == s.take(6)
                &&& final(c).hands.second@ == s.skip(6).take(6)
                &&& final(c).deck.contents() == s.skip(6).skip(6)
                &&& r.0 == GameState::WaitingForCrib
                &&& (r.1 matches PlayResult::CardsDealt(info) && info.hands.first@ == final(c).hands.first@ && info.hands.second@ == final(c).hands.second@ && info.dealer
                    == old(c).dealer && info.scores == old(c).scores)
            },
{
    broadcast use vstd::seq_lib::group_to_multiset_ensures;

    c.deck.shuffle();
    let ghost shuffled = c.deck.contents();
    proof {
        assert(shuffled.to_multiset().len() == shuffled.len());
    }
    if c.deck.remaining() < 12 {
        return (GameState::ReadyToDeal, PlayResult::Incomplete);
    }
    let h1 = c.deck.deal(6);
    let h2 = c.deck.deal(6);
    c.hands = PerPlayer::new(h1, h2);
    let info = DealtInfo {
        hands: clone_hands(&c.hands),
        dealer: c.dealer,
        scores: clone_scores(&c.scores),
    };
    (GameState::WaitingForCrib, PlayResult::CardsDealt(info))
}

/// Form the crib: ask each seat for its two discards, move them into
/// the crib, and snapshot the post-discard hands for the count at the
/// end of pegging.
pub fn apply_choose_crib<P: KnowsCribbage, Q: KnowsCribbage>(
    c: &mut GameComponents,
    first: &mut P,
    second: &mut Q,
) -> (r: (GameState, PlayResult))
    requires
        old(c).hands.first@.len() >= 2,
        old(c).hands.first@.no_duplicates(),
        old(c).hands.second@.len() >= 2,
        old(c).hands.second@.no_duplicates(),
    ensures
        final(c).deck == old(c).deck,
        final(c).scores == old(c).scores,
        final(c).dealer == old(c).dealer,
        final(c).played == old(c).played,
        final(c).up_card == old(c).up_card,
        final(c).current_player == old(c).current_player,
        final(c).hands.first@.len() == old(c).hands.first@.len() - 2,
        final(c).hands.second@.len() == old(c).hands.second@.len() - 2,
        final(c).hands.first@.no_duplicates(),
        final(c).hands.second@.no_duplicates(),
        final(c).crib@.len() == 4,
        final(c).crib@.to_multiset().add(final(c).hands.first@.to_multiset()).add(
            final(c).hands.second@.to_multiset(),
        ) == old(c).hands.first@.to_multiset().add(old(c).hands.second@.to_multiset()),
        final(c).dealt.first@ == final(c).hands.first@,
        final(c).dealt.second@ == final(c).hands.second@,
        r.0 == GameState::TurningUpCard,
        r.1 matches PlayResult::CribChosen(info) && info.hands.first@ == final(c).hands.first@
            && info.hands.second@ == final(c).hands.second@ && info.dealer == old(c).dealer
            && info.scores == old(c).scores,
{
    broadcast use vstd::seq_lib::group_to_multiset_ensures;

    let mut crib: Vec<Card> = Vec::new();

    let picks1 = first.choose_crib(&c.hands.first);
    let p10 = picks1[0];
    let p11 = picks1[1];
    proof {
        assert(old(c).hands.first@.to_multiset().count(p11) > 0);
    }
    remove_card(&mut c.hands.first, p10);
    proof {
        assert(c.hands.first@.to_multiset().count(p11) == old(c).hands.first@.to_multiset().count(
            p11,
        ));
        assert(c.hands.first@.contains(p11));
    }
    remove_card(&mut c.hands.first, p11);
    crib.push(p10);
    crib.push(p11);

    let picks2 = second.choose_crib(&c.hands.second);
    let p20 = picks2[0];
    let p21 = picks2[1];
    proof {
        assert(old(c).hands.second@.to_multiset().count(p21) > 0);
    }
    remove_card(&mut c.hands.second, p20);
    proof {
        assert(c.hands.second@.to_multiset().count(p21) == old(c).hands.second@.to_multiset().count(p21));
        assert(c.hands.second@.contains(p21));
    }
    remove_card(&mut c.hands.second, p21);
    crib.push(p20);
    crib.push(p21);

    c.crib = crib;
    c.dealt = clone_hands(&c.hands);
    proof {
        assert(c.crib@ =~= seq![p10, p11, p20, p21]);
        assert(c.crib@.to_multiset().add(c.hands.first@.to_multiset()).add(
            c.hands.second@.to_multiset(),
        ) =~= old(c).hands.first@.to_multiset().add(old(c).hands.second@.to_multiset())) by {
            assert(c.crib@ =~= seq![p10].push(p11).push(p20).push(p21));
            assert(seq![p10].push(p11).push(p20).push(p21).to_multiset()
                == Multiset::<Card>::empty().insert(p10).insert(p11).insert(p20).insert(p21)) by {
                assert(seq![p10] =~= Seq::<Card>::empty().push(p10));
                assert(Seq::<Card>::empty().to_multiset() =~= Multiset::<Card>::empty());
            }
        }
    }
    let info = CribInfo {
        hands: clone_hands(&c.hands),
        dealer: c.dealer,
        scores: clone_scores(&c.scores),
    };
    (GameState::TurningUpCard, PlayResult::CribChosen(info))
}

/// Turn the cut card: deal one card; a jack scores the dealer two at
/// once ("nibs"), ending the match immediately if that reaches 121.
/// Pegging then starts with the seat after the dealer. An empty deck
/// cannot serve the cut; the rule then reports an incomplete
/// application.
pub fn apply_turn_up_card(c: &mut GameComponents) -> (r: (GameState, PlayResult))
    ensures
        final(c).hands == old(c).hands,
        final(c).dealt == old(c).dealt,
        final(c).crib == old(c).crib,
        final(c).dealer == old(c).dealer,
        final(c).deck.stacked_with() == old(c).deck.stacked_with(),
        final(c).deck.stock() == old(c).deck.stock(),
        old(c).deck.wf() ==> final(c).deck.wf(),
        old(c).deck.contents().len() == 0 ==> r == (
            GameState::TurningUpCard,
            PlayResult::Incomplete,
        ) && final(c).scores == old(c).scores && final(c).up_card == old(c).up_card,
        old(c).deck.contents().len() >= 1 ==> {
            &&& final(c).up_card == old(c).deck.contents()[0]
            &&& final(c).current_player == position_after(old(c).dealer)
            &&& final(c).played@ =~= Seq::<Card>::empty()
            &&& final(c).deck.contents() == old(c).deck.contents().skip(1)
            &&& if old(c).deck.contents()[0].rank == Rank::Jack {
                if old(c).scores.of(old(c).dealer) + 2 >= 121 {
                    &&& final(c).scores.of(old(c).dealer) == 121
                    &&& final(c).scores.of(position_after(old(c).dealer)) == old(c).scores.of(
                        position_after(old(c).dealer),
                    )
                    &&& r.0 == GameState::GameOver
                    &&& (r.1 matches PlayResult::GameOver(res) && res.winner == old(c).dealer
                        && res.scores == final(c).scores && res.up_card == final(c).up_card)
                } else {
                    &&& final(c).scores.of(old(c).dealer) == old(c).scores.of(old(c).dealer) + 2
                    &&& final(c).scores.of(position_after(old(c).dealer)) == old(c).scores.of(
                        position_after(old(c).dealer),
                    )
                    &&& r.0 == GameState::Pegging
                    &&& (r.1 matches PlayResult::WaitingForPlay(info) && info.up_card == final(c).up_card && info.current_player == final(c).current_player && info.scores
                        == final(c).scores && info.dealer == old(c).dealer)
                }
            } else {
                &&& final(c).scores == old(c).scores
                &&& r.0 == GameState::Pegging
                &&& (r.1 matches PlayResult::WaitingForPlay(info) && info.up_card == final(c).up_card && info.current_player == final(c).current_player && info.scores == final(c).scores && info.dealer == old(c).dealer && info.played@ =~= Seq::<Card>::empty())
            }
        },
{
    if c.deck.remaining() < 1 {
        return (GameState::TurningUpCard, PlayResult::Incomplete);
    }
    c.current_player = c.dealer.next();
    c.played = Vec::new();
    let cut = c.deck.deal(1);
    c.up_card = cut[0];
    proof {
        assert(cut@[0] == old(c).deck.contents()[0]);
    }
    if c.up_card.rank.ordinal() == 11 {
        proof {
            lemma_rank_ordinal_injective(c.up_card.rank, Rank::Jack);
        }
        let won = award_points(&mut c.scores, c.dealer, 2);
        if won {
            let res = game_result(c, c.dealer);
            return (GameState::GameOver, PlayResult::GameOver(res));
        }
    } else {
        proof {
            lemma_rank_ordinal_injective(c.up_card.rank, Rank::Jack);
        }
    }
    let info = pegging_info(c);
    (GameState::Pegging, PlayResult::WaitingForPlay(info))
}

/// One pegging turn: if the current seat cannot stay within thirty-one
/// it must say go; otherwise its player lays one card, the new table is
/// scored, the points are awarded — ending the match at 121 — and the
/// turn passes.
pub fn apply_pegging<P: KnowsCribbage, Q: KnowsCribbage>(
    c: &mut GameComponents,
    first: &mut P,
    second: &mut Q,
) -> (r: (GameState, PlayResult))
    requires
        pip_sum(old(c).played@) <= 31,
        old(c).hands.first@.no_duplicates(),
        old(c).hands.second@.no_duplicates(),
    ensures
        final(c).deck == old(c).deck,
        final(c).dealt == old(c).dealt,
        final(c).crib == old(c).crib,
        final(c).dealer == old(c).dealer,
        final(c).up_card == old(c).up_card,
        pip_sum(final(c).played@) <= 31,
        final(c).hands.first@.no_duplicates(),
        final(c).hands.second@.no_duplicates(),
        !can_play(old(c).hands.of(old(c).current_player)@, pip_sum(old(c).played@)) ==> {
            &&& final(c).hands == old(c).hands
            &&& final(c).played == old(c).played
            &&& final(c).scores == old(c).scores
            &&& final(c).current_player == old(c).current_player
            &&& r.0 == GameState::AnnouncingFirstGo
            &&& (r.1 matches PlayResult::Go(info) && info.caller == old(c).current_player
                && info.played@ == old(c).played@ && info.scores == old(c).scores)
        },
        can_play(old(c).hands.of(old(c).current_player)@, pip_sum(old(c).played@)) ==> exists|
            choice: Card,
        |
            {
                &&& old(c).hands.of(old(c).current_player)@.contains(choice)
                &&& rank_value(choice.rank) + pip_sum(old(c).played@) <= 31
                &&& #[trigger] final(c).played@ == old(c).played@.push(choice)
                &&& final(c).hands.of(old(c).current_player)@ == old(c).hands.of(
                    old(c).current_player,
                )@.remove_value(choice)
                &&& final(c).hands.of(position_after(old(c).current_player)) == old(c).hands.of(
                    position_after(old(c).current_player),
                )
                &&& {
                    let pts = peg_total_value(peg_score(old(c).played@.push(choice)));
                    if old(c).scores.of(old(c).current_player) + pts >= 121 {
                        &&& final(c).scores.of(old(c).current_player) == 121
                        &&& final(c).scores.of(position_after(old(c).current_player)) == old(c).scores.of(position_after(old(c).current_player))
                        &&& final(c).current_player == old(c).current_player
                        &&& r.0 == GameState::GameOver
                        &&& (r.1 matches PlayResult::GameOver(res) && res.winner == old(c).current_player && res.scores == final(c).scores)
                    } else {
                        &&& final(c).scores.of(old(c).current_player) == old(c).scores.of(
                            old(c).current_player,
                        ) + pts
                        &&& final(c).scores.of(position_after(old(c).current_player)) == old(c).scores.of(position_after(old(c).current_player))
                        &&& final(c).current_player == position_after(old(c).current_player)
                        &&& r.0 == GameState::Pegging
                        &&& (r.1 matches PlayResult::WaitingForPlay(info) && info.current_player
                            == final(c).current_player && info.scores == final(c).scores
                            && info.played@ == final(c).played@)
                    }
                }
            },
{
    let current = c.current_player;
    let go = must_say_go(c.hands.get(current), &c.played);
    if go {
        let info = go_info(c, current);
        return (GameState::AnnouncingFirstGo, PlayResult::Go(info));
    }
    let total = total_of(&c.played);
    let choice = match current {
        PlayerPosition::First => first.play(&c.hands.first, total),
        PlayerPosition::Second => second.play(&c.hands.second, total),
    };
    match current {
        PlayerPosition::First => remove_card(&mut c.hands.first, choice),
        PlayerPosition::Second => remove_card(&mut c.hands.second, choice),
    }
    c.played.push(choice);
    proof {
        assert(c.played@.drop_last() =~= old(c).played@);
        assert(pip_sum(c.played@) == pip_sum(old(c).played@) + rank_value(choice.rank));
        lemma_peg_score_points(c.played@);
    }
    let found = score_pegging(c.played.clone());
    let pts = pegging_points(&found);
    let won = award_points(&mut c.scores, current, pts);
    if won {
        let res = game_result(c, current);
        return (GameState::GameOver, PlayResult::GameOver(res));
    }
    c.current_player = current.next();
    let info = pegging_info(c);
    (GameState::Pegging, PlayResult::WaitingForPlay(info))
}

/// After the first go the turn passes; if the other seat cannot play
/// either, the second go is announced, else pegging resumes with them.
pub fn apply_first_go(c: &mut GameComponents) -> (r: (GameState, PlayResult))
    requires
        pip_sum(old(c).played@) <= 31,
    ensures
        final(c).deck == old(c).deck,
        final(c).hands == old(c).hands,
        final(c).dealt == old(c).dealt,
        final(c).crib == old(c).crib,
        final(c).dealer == old(c).dealer,
        final(c).up_card == old(c).up_card,
        final(c).played == old(c).played,
        final(c).scores == old(c).scores,
        final(c).current_player == position_after(old(c).current_player),
        !can_play(old(c).hands.of(position_after(old(c).current_player))@, pip_sum(old(c).played@))
            ==> r.0 == GameState::AnnouncingSecondGo && (r.1 matches PlayResult::Go(info)
            && info.caller == position_after(old(c).current_player)),
        can_play(old(c).hands.of(position_after(old(c).current_player))@, pip_sum(old(c).played@))
            ==> r.0 == GameState::Pegging && (r.1 matches PlayResult::WaitingForPlay(info)
            && info.current_player == position_after(old(c).current_player) && info.scores == old(c).scores),
{
    c.current_player = c.current_player.next();
    let go = must_say_go(c.hands.get(c.current_player), &c.played);
    if go {
        let info = go_info(c, c.current_player);
        return (GameState::AnnouncingSecondGo, PlayResult::Go(info));
    }
    let info = pegging_info(c);
    (GameState::Pegging, PlayResult::WaitingForPlay(info))
}

/// After the second go, the seat that forced the pass scores two for
/// the go — ending the match at 121 — and the street is acknowledged
/// before pegging resumes.
pub fn apply_second_go(c: &mut GameComponents) -> (r: (GameState, PlayResult))
    ensures
        final(c).deck == old(c).deck,
        final(c).hands == old(c).hands,
        final(c).dealt == old(c).dealt,
        final(c).crib == old(c).crib,
        final(c).dealer == old(c).dealer,
        final(c).up_card == old(c).up_card,
        final(c).played == old(c).played,
        final(c).scores.of(position_after(old(c).current_player)) == old(c).scores.of(
            position_after(old(c).current_player),
        ),
        old(c).scores.of(old(c).current_player) + 2 >= 121 ==> {
            &&& final(c).scores.of(old(c).current_player) == 121
            &&& final(c).current_player == old(c).current_player
            &&& r.0 == GameState::GameOver
            &&& (r.1 matches PlayResult::GameOver(res) && res.winner == old(c).current_player
                && res.scores == final(c).scores)
        },
        old(c).scores.of(old(c).current_player) + 2 < 121 ==> {
            &&& final(c).scores.of(old(c).current_player) == old(c).scores.of(
                old(c).current_player,
            ) + 2
            &&& final(c).current_player == position_after(old(c).current_player)
            &&& r.0 == GameState::ScoringLastCard
            &&& (r.1 matches PlayResult::WaitingForLastCardAcknowledgement(info)
                && info.current_player == final(c).current_player && info.scores == final(c).scores)
        },
{
    let current = c.current_player;
    let won = award_points(&mut c.scores, current, 2);
    if won {
        let res = game_result(c, current);
        return (GameState::GameOver, PlayResult::GameOver(res));
    }
    c.current_player = current.next();
    let info = pegging_info(c);
    (GameState::ScoringLastCard, PlayResult::WaitingForLastCardAcknowledgement(info))
}

/// Close the street: clear the table; if the current seat is out of
/// cards skip it, and when both are empty count the pone's hand —
/// winning at 121 — before the dealer's count; otherwise pegging
/// resumes.
pub fn apply_resume_or_score(c: &mut GameComponents) -> (r: (GameState, PlayResult))
    requires
        (old(c).hands.first@.len() == 0 && old(c).hands.second@.len() == 0) ==> old(c).dealt.of(
            position_after(old(c).dealer),
        )@.len() == 4,
    ensures
        final(c).deck == old(c).deck,
        final(c).hands == old(c).hands,
        final(c).dealt == old(c).dealt,
        final(c).crib == old(c).crib,
        final(c).dealer == old(c).dealer,
        final(c).up_card == old(c).up_card,
        final(c).played@ =~= Seq::<Card>::empty(),
        old(c).hands.of(old(c).current_player)@.len() > 0 ==> {
            &&& final(c).current_player == old(c).current_player
            &&& final(c).scores == old(c).scores
            &&& r.0 == GameState::Pegging
            &&& (r.1 matches PlayResult::WaitingForPlay(info) && info.current_player == old(c).current_player && info.played@ =~= Seq::<Card>::empty())
        },
        old(c).hands.of(old(c).current_player)@.len() == 0 && old(c).hands.of(
            position_after(old(c).current_player),
        )@.len() > 0 ==> {
            &&& final(c).current_player == position_after(old(c).current_player)
            &&& final(c).scores == old(c).scores
            &&& r.0 == GameState::Pegging
            &&& (r.1 matches PlayResult::WaitingForPlay(info) && info.current_player
                == position_after(old(c).current_player))
        },
        old(c).hands.first@.len() == 0 && old(c).hands.second@.len() == 0 ==> {
            let pone = position_after(old(c).dealer);
            let pts = hand_total_value(
                hand_score(old(c).dealt.of(pone)@, old(c).up_card, false),
            );
            if old(c).scores.of(pone) + pts >= 121 {
                &&& final(c).scores.of(pone) == 121
                &&& final(c).scores.of(old(c).dealer) == old(c).scores.of(old(c).dealer)
                &&& r.0 == GameState::GameOver
                &&& (r.1 matches PlayResult::GameOver(res) && res.winner == pone && res.scores
                    == final(c).scores)
            } else {
                &&& final(c).scores.of(pone) == old(c).scores.of(pone) + pts
                &&& final(c).scores.of(old(c).dealer) == old(c).scores.of(old(c).dealer)
                &&& r.0 == GameState::ScoringDealer
                &&& (r.1 matches PlayResult::HandScore(info) && info.player == pone
                    && (info.scorings matches Some(sc) && hand_views(sc@) == hand_score(
                    old(c).dealt.of(pone)@,
                    old(c).up_card,
                    false,
                )) && info.scores == final(c).scores && info.hand@ == old(c).dealt.of(pone)@)
            }
        },
{
    c.played = Vec::new();
    let empty_now = c.hands.get(c.current_player).len() == 0;
    if empty_now {
        c.current_player = c.current_player.next();
        let other_empty = c.hands.get(c.current_player).len() == 0;
        if other_empty {
            let pone = c.dealer.next();
            proof {
                assert(c.hands.first@.len() == 0 && c.hands.second@.len() == 0);
                lemma_hand_score_points(c.dealt.of(pone)@, c.up_card, false);
            }
            let scorings = score_hand(c.dealt.get(pone), c.up_card);
            let pts = hand_points(&scorings);
            let won = award_points(&mut c.scores, pone, pts);
            if won {
                let res = game_result(c, pone);
                return (GameState::GameOver, PlayResult::GameOver(res));
            }
            let info = ScoreInfo {
                player: pone,
                hand: c.dealt.get(pone).clone(),
                up_card: c.up_card,
                scorings: Some(scorings),
                scores: clone_scores(&c.scores),
            };
            return (GameState::ScoringDealer, PlayResult::HandScore(info));
        }
    }
    let info = pegging_info(c);
    (GameState::Pegging, PlayResult::WaitingForPlay(info))
}

/// A match in progress: its phase and its components. One rule applies
/// per phase; the caller drives the match by applying them in turn,
/// handing in the two players at each call that needs a decision.
pub struct GameRunner {
    pub state: GameState,
    pub components: GameComponents,
}

impl GameRunner {
    /// A fresh match, ready to choose its dealer.
    pub fn new() -> (r: GameRunner)
        ensures
            r.state == GameState::New,
            r.components.deck.wf(),
            r.components.deck.stacked_with() is None,
            r.components.scores == (PerPlayer { first: 0u8, second: 0u8 }),
            r.components.dealer == PlayerPosition::First,
    {
        GameRunner { state: GameState::New, components: GameComponents::new() }
    }
}

} // verus!
