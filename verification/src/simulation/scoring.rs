//! Pegging scoring for the simulation engine: the same rules as the
//! main pegging scorer, with every event carrying its cards, and with
//! the fifteen as the only count event.

use vstd::prelude::*;
use crate::combinatorics::{combinations, combos, views_of};
use crate::deck::Card;
use crate::scoring::{
    lemma_longest_tail_run_range,
    longest_tail_run,
    peg_tail,
    pip_sum,
    tail_match_len,
    total_of,
};

verus! {

/// A point-scoring event during simulated pegging, carrying its cards.
#[derive(Clone, Debug, PartialEq, Eq)]
pub enum Scorings {
    Fifteen(Vec<Card>),
    Pair(Vec<Card>),
    RunOfThree(Vec<Card>),
    RunOfFour(Vec<Card>),
    RunOfFive(Vec<Card>),
    RunOfSix(Vec<Card>),
    RunOfSeven(Vec<Card>),
}

/// The mathematical value of a simulated pegging event.
pub enum SimEvent {
    Fifteen(Seq<Card>),
    Pair(Seq<Card>),
    RunOfThree(Seq<Card>),
    RunOfFour(Seq<Card>),
    RunOfFive(Seq<Card>),
    RunOfSix(Seq<Card>),
    RunOfSeven(Seq<Card>),
}

impl View for Scorings {
    type V = SimEvent;

    open spec fn view(&self) -> SimEvent {
        match self {
            Scorings::Fifteen(v) => SimEvent::Fifteen(v@),
            Scorings::Pair(v) => SimEvent::Pair(v@),
            Scorings::RunOfThree(v) => SimEvent::RunOfThree(v@),
            Scorings::RunOfFour(v) => SimEvent::RunOfFour(v@),
            Scorings::RunOfFive(v) => SimEvent::RunOfFive(v@),
            Scorings::RunOfSix(v) => SimEvent::RunOfSix(v@),
            Scorings::RunOfSeven(v) => SimEvent::RunOfSeven(v@),
        }
    }
}

/// The views of a list of simulated pegging events.
pub open spec fn sim_views(s: Seq<Scorings>) -> Seq<SimEvent> {
    s.map_values(|e: Scorings| e@)
}

/// The run event of length `l` over the given cards.
pub open spec fn sim_run_event(l: nat, t: Seq<Card>) -> SimEvent {
    if l == 3 {
        SimEvent::RunOfThree(t)
    } else if l == 4 {
        SimEvent::RunOfFour(t)
    } else if l == 5 {
        SimEvent::RunOfFive(t)
    } else if l == 6 {
        SimEvent::RunOfSix(t)
    } else {
        SimEvent::RunOfSeven(t)
    }
}

/// The events a simulated pegging sequence scores: a fifteen on the
/// whole total carrying every played card, one pair per two-card subset
/// of the matching tail, and the single longest trailing run carrying
/// its cards.
pub open spec fn sim_score(played: Seq<Card>) -> Seq<SimEvent> {
    let count_part = if pip_sum(played) == 15 {
        seq![SimEvent::Fifteen(played)]
    } else {
        Seq::<SimEvent>::empty()
    };
    let pair_part = combos(peg_tail(played), 2).map_values(|t: Seq<Card>| SimEvent::Pair(t));
    let cap: nat = if played.len() < 7 {
        played.len()
    } else {
        7
    };
    let l = longest_tail_run(played, cap);
    let run_part = if l == 0 {
        Seq::<SimEvent>::empty()
    } else {
        seq![sim_run_event(l, played.skip(played.len() - l))]
    };
    count_part + pair_part + run_part
}

/// The point-scoring events for a simulated pegging sequence, checked
/// once after every card laid. The running total can never exceed
/// thirty-one.
pub fn score_pegging(played: Vec<Card>) -> (scorings: Vec<Scorings>)
    requires
        pip_sum(played@) <= 31,
    ensures
        sim_views(scorings@) == sim_score(played@),
{
    let mut scorings: Vec<Scorings> = Vec::new();
    let ghost count_part = if pip_sum(played@) == 15 {
        seq![SimEvent::Fifteen(played@)]
    } else {
        Seq::<SimEvent>::empty()
    };

    let total = total_of(&played);
    if total == 15 {
        scorings.push(Scorings::Fifteen(played.clone()));
    }
    proof {
        assert(sim_views(scorings@) =~= count_part);
    }

    // The matching tail: walk backward while consecutive ranks match.
    let n = played.len();
    let mut start: usize = if n == 0 {
        0
    } else {
        n - 1
    };
    proof {
        assert(played@.take(n as int) =~= played@);
    }
    while start > 0 && played[start - 1].rank == played[start].rank
        invariant
            n == played@.len(),
            n > 0 ==> start < n,
            n == 0 ==> start == 0,
            tail_match_len(played@) == n - start + if n == 0 {
                0int
            } else {
                tail_match_len(played@.take(start + 1)) - 1
            },
            n > 0 ==> tail_match_len(played@.take(start + 1)) >= 1,
        decreases start,
    {
        proof {
            let p = played@;
            assert(p.take(start + 1).drop_last() =~= p.take(start as int));
            assert(p.take(start + 1)[start - 1].rank == p.take(start + 1)[start as int].rank);
            assert(tail_match_len(p.take(start + 1)) == 1 + tail_match_len(p.take(start as int)));
        }
        start -= 1;
    }
    proof {
        if n > 0 {
            assert(tail_match_len(played@.take(start + 1)) == 1) by {
                if start > 0 {
                    assert(played@.take(start + 1)[start - 1].rank != played@.take(start + 1)[
                        start as int
                    ].rank);
                }
            }
            assert(tail_match_len(played@) == n - start);
        }
        assert(peg_tail(played@) == played@.skip(start as int));
    }
    let mut tail: Vec<Card> = Vec::new();
    let mut i: usize = start;
    while i < n
        invariant
            start <= i <= n,
            n == played@.len(),
            tail@ =~= played@.skip(start as int).take(i - start),
        decreases n - i,
    {
        tail.push(played[i]);
        proof {
            let sk = played@.skip(start as int);
            assert(sk.take(i - start + 1) =~= sk.take(i - start).push(played@[i as int]));
        }
        i += 1;
    }
    proof {
        assert(played@.skip(start as int).take(n - start) =~= played@.skip(start as int));
        assert(tail@ == peg_tail(played@));
    }
    let pairs = combinations(&tail, 2);
    let ghost pair_part = combos(peg_tail(played@), 2).map_values(|t: Seq<Card>| SimEvent::Pair(t));
    let mut k: usize = 0;
    while k < pairs.len()
        invariant
            k <= pairs@.len(),
            views_of(pairs@) == combos(peg_tail(played@), 2),
            pair_part == combos(peg_tail(played@), 2).map_values(|t: Seq<Card>| SimEvent::Pair(t)),
            sim_views(scorings@) =~= count_part + pair_part.take(k as int),
        decreases pairs@.len() - k,
    {
        let pair = pairs[k].clone();
        proof {
            assert(pair@ == views_of(pairs@)[k as int]);
        }
        let ghost prev = scorings@;
        scorings.push(Scorings::Pair(pair));
        proof {
            let whole = count_part + pair_part.take(k + 1);
            assert(pair_part.len() == pairs@.len());
            assert(sim_views(prev).len() == prev.len());
            assert(sim_views(prev) == count_part + pair_part.take(k as int));
            assert(prev.len() == count_part.len() + k);
            assert forall|m: int| 0 <= m < scorings@.len() implies #[trigger] sim_views(
                scorings@,
            )[m] == whole[m] by {
                assert(sim_views(scorings@)[m] == scorings@[m]@);
                if m < prev.len() {
                    assert(scorings@[m] == prev[m]);
                    assert(sim_views(prev)[m] == prev[m]@);
                    assert((count_part + pair_part.take(k as int))[m] == whole[m]);
                } else {
                    assert(m == count_part.len() + k);
                    assert(whole[m] == pair_part.take(k + 1)[k as int]);
                    assert(whole[m] == pair_part[k as int]);
                    assert(pair_part[k as int] == SimEvent::Pair(
                        combos(peg_tail(played@), 2)[k as int],
                    ));
                    assert(scorings@[m] == Scorings::Pair(pair));
                    assert(pair@ == combos(peg_tail(played@), 2)[k as int]);
                }
            }
            assert(sim_views(scorings@) =~= whole);
        }
        k += 1;
    }
    proof {
        assert(pair_part.take(pair_part.len() as int) =~= pair_part);
    }

    // The longest trailing run, from the longest candidate down.
    let cap: usize = if n < 7 {
        n
    } else {
        7
    };
    let mut best: usize = 0;
    let mut l: usize = cap;
    while l >= 3
        invariant_except_break
            best == 0,
            longest_tail_run(played@, cap as nat) == longest_tail_run(played@, l as nat),
        invariant
            l <= cap,
            cap <= n,
            cap <= 7,
            n == played@.len(),
        ensures
            n == played@.len(),
            cap <= n,
            cap <= 7,
            best <= cap,
            best == longest_tail_run(played@, cap as nat),
        decreases l,
    {
        if crate::scoring::trailing_run_check(&played, n - l) {
            best = l;
            proof {
                assert(longest_tail_run(played@, l as nat) == l);
            }
            break ;
        }
        proof {
            assert(longest_tail_run(played@, l as nat) == longest_tail_run(
                played@,
                (l - 1) as nat,
            ));
        }
        l -= 1;
    }
    let ghost run_len = longest_tail_run(played@, cap as nat);
    let ghost before_run = scorings@;
    if best >= 3 {
        let mut run_cards: Vec<Card> = Vec::new();
        let mut j: usize = n - best;
        while j < n
            invariant
                n - best <= j <= n,
                best <= n,
                n == played@.len(),
                run_cards@ =~= played@.skip(n - best).take(j - (n - best)),
            decreases n - j,
        {
            run_cards.push(played[j]);
            proof {
                let sk = played@.skip(n - best);
                assert(sk.take(j - (n - best) + 1) =~= sk.take(j - (n - best)).push(
                    played@[j as int],
                ));
            }
            j += 1;
        }
        proof {
            assert(played@.skip(n - best).take(n - (n - best)) =~= played@.skip(n - best));
            assert(run_cards@ == played@.skip(n - best));
        }
        let event = if best == 3 {
            Scorings::RunOfThree(run_cards)
        } else if best == 4 {
            Scorings::RunOfFour(run_cards)
        } else if best == 5 {
            Scorings::RunOfFive(run_cards)
        } else if best == 6 {
            Scorings::RunOfSix(run_cards)
        } else {
            Scorings::RunOfSeven(run_cards)
        };
        proof {
            assert(event@ == sim_run_event(best as nat, played@.skip(n - best)));
        }
        scorings.push(event);
        proof {
            assert(sim_views(scorings@) =~= sim_views(before_run).push(sim_run_event(
                best as nat,
                played@.skip(n - best),
            )));
        }
    }
    proof {
        let run_part = if run_len == 0 {
            Seq::<SimEvent>::empty()
        } else {
            seq![sim_run_event(run_len, played@.skip(played@.len() - run_len))]
        };
        assert(pair_part.len() == pairs@.len());
        assert(sim_views(before_run) == count_part + pair_part) by {
            assert(pair_part.take(pair_part.len() as int) =~= pair_part);
        }
        if best >= 3 {
            assert(run_len == best);
            assert(run_part =~= seq![sim_run_event(best as nat, played@.skip(n - best))]);
            assert(sim_views(scorings@) =~= count_part + pair_part + run_part);
        } else {
            assert(run_len == 0) by {
                lemma_longest_tail_run_range(played@, cap as nat);
            }
            assert(scorings@ == before_run);
            assert(count_part + pair_part + run_part =~= count_part + pair_part);
        }
        assert(sim_views(scorings@) =~= sim_score(played@));
    }
    scorings
}

} // verus!
