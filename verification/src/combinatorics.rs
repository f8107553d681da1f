//! The subset generator: every r-element subsequence of an ordered card
//! sequence, exhaustively and deterministically.

use vstd::prelude::*;
use crate::deck::Card;

verus! {

/// All subsequences of `s` of length `r`, ordered lexicographically by
/// the index sets that select them: first every subsequence that keeps
/// the head, then every one that drops it.
pub open spec fn combos(s: Seq<Card>, r: nat) -> Seq<Seq<Card>>
    decreases s.len(),
{
    if r == 0 {
        seq![Seq::<Card>::empty()]
    } else if s.len() < r {
        Seq::<Seq<Card>>::empty()
    } else {
        combos(s.drop_first(), (r - 1) as nat).map_values(|t: Seq<Card>| seq![s.first()] + t)
            + combos(s.drop_first(), r)
    }
}

/// `t` is a subsequence of `s`: the cards of `t` occur in `s`, in order,
/// at strictly increasing positions.
pub open spec fn is_subseq(t: Seq<Card>, s: Seq<Card>) -> bool
    decreases s.len(),
{
    if t.len() == 0 {
        true
    } else if s.len() == 0 {
        false
    } else {
        (t.first() == s.first() && is_subseq(t.drop_first(), s.drop_first())) || is_subseq(
            t,
            s.drop_first(),
        )
    }
}

/// The number of r-element subsets of an n-element set.
pub open spec fn binom(n: nat, r: nat) -> nat
    decreases n,
{
    if r == 0 {
        1
    } else if n == 0 {
        0
    } else {
        binom((n - 1) as nat, (r - 1) as nat) + binom((n - 1) as nat, r)
    }
}

/// A subsequence is never longer than the sequence it is drawn from.
pub proof fn lemma_subseq_len(t: Seq<Card>, s: Seq<Card>)
    requires
        is_subseq(t, s),
    ensures
        t.len() <= s.len(),
    decreases s.len(),
{
    if t.len() == 0 {
    } else if t.first() == s.first() && is_subseq(t.drop_first(), s.drop_first()) {
        lemma_subseq_len(t.drop_first(), s.drop_first());
    } else {
        lemma_subseq_len(t, s.drop_first());
    }
}

/// A subsequence of the tail of `s` is a subsequence of `s`.
pub proof fn lemma_subseq_of_tail(t: Seq<Card>, s: Seq<Card>)
    requires
        s.len() > 0,
        is_subseq(t, s.drop_first()),
    ensures
        is_subseq(t, s),
{
}

/// The generator is sound and counts its output: every element of
/// `combos(s, r)` is an r-element subsequence of `s`, and there are
/// exactly as many elements as there are r-element subsets.
pub proof fn lemma_combos_sound(s: Seq<Card>, r: nat)
    ensures
        combos(s, r).len() == binom(s.len(), r),
        forall|k: int|
            0 <= k < combos(s, r).len() ==> (#[trigger] combos(s, r)[k]).len() == r && is_subseq(
                combos(s, r)[k],
                s,
            ),
    decreases s.len(),
{
    if r == 0 {
    } else if s.len() < r {
        assert(binom(s.len(), r) == 0) by {
            lemma_binom_zero(s.len(), r);
        }
    } else {
        let tail = s.drop_first();
        lemma_combos_sound(tail, (r - 1) as nat);
        lemma_combos_sound(tail, r);
        let mapped = combos(tail, (r - 1) as nat).map_values(|t: Seq<Card>| seq![s.first()] + t);
        assert forall|k: int|
            0 <= k < combos(s, r).len() implies (#[trigger] combos(s, r)[k]).len() == r
            && is_subseq(combos(s, r)[k], s) by {
            if k < mapped.len() {
                let t = combos(tail, (r - 1) as nat)[k];
                assert(combos(s, r)[k] == seq![s.first()] + t);
                assert((seq![s.first()] + t).first() == s.first());
                assert((seq![s.first()] + t).drop_first() =~= t);
            } else {
                let t = combos(tail, r)[k - mapped.len()];
                assert(combos(s, r)[k] == t);
                lemma_subseq_of_tail(t, s);
            }
        }
    }
}

/// There are no r-element subsets of a set with fewer than r elements.
proof fn lemma_binom_zero(n: nat, r: nat)
    requires
        n < r,
    ensures
        binom(n, r) == 0,
    decreases n,
{
    if n > 0 {
        lemma_binom_zero((n - 1) as nat, (r - 1) as nat);
        lemma_binom_zero((n - 1) as nat, r);
    }
}

/// The generator is exhaustive: every r-element subsequence of `s`
/// appears in `combos(s, r)`.
pub proof fn lemma_combos_complete(s: Seq<Card>, r: nat, t: Seq<Card>)
    requires
        is_subseq(t, s),
        t.len() == r,
    ensures
        combos(s, r).contains(t),
    decreases s.len(),
{
    if r == 0 {
        assert(t =~= Seq::<Card>::empty());
        assert(combos(s, r)[0] == t);
    } else {
        let tail = s.drop_first();
        let mapped = combos(tail, (r - 1) as nat).map_values(|u: Seq<Card>| seq![s.first()] + u);
        if t.first() == s.first() && is_subseq(t.drop_first(), tail) {
            lemma_combos_complete(tail, (r - 1) as nat, t.drop_first());
            let i = choose|i: int|
                0 <= i < combos(tail, (r - 1) as nat).len() && #[trigger] combos(
                    tail,
                    (r - 1) as nat,
                )[i] == t.drop_first();
            assert(mapped[i] == seq![s.first()] + t.drop_first());
            assert(seq![s.first()] + t.drop_first() =~= t);
            assert(combos(s, r)[i] == t);
        } else {
            assert(is_subseq(t, tail));
            lemma_subseq_len(t, tail);
            lemma_combos_complete(tail, r, t);
            let i = choose|i: int|
                0 <= i < combos(tail, r).len() && #[trigger] combos(tail, r)[i] == t;
            assert(combos(s, r)[mapped.len() + i] == t);
        }
    }
}

/// The views of a list of card lists.
pub open spec fn views_of(v: Seq<Vec<Card>>) -> Seq<Seq<Card>> {
    v.map_values(|x: Vec<Card>| x@)
}

/// Every subsequence of length `r` of the suffix of `cards` that starts
/// at `start`.
fn combos_from(cards: &Vec<Card>, start: usize, r: usize) -> (result: Vec<Vec<Card>>)
    requires
        start <= cards@.len(),
    ensures
        views_of(result@) == combos(cards@.skip(start as int), r as nat),
    decreases cards@.len() - start,
{
    let s = Ghost(cards@.skip(start as int));
    if r == 0 {
        let mut result: Vec<Vec<Card>> = Vec::new();
        result.push(Vec::new());
        proof {
            assert(views_of(result@) =~= combos(s@, 0));
        }
        result
    } else if cards.len() - start < r {
        let result: Vec<Vec<Card>> = Vec::new();
        proof {
            assert(s@.len() < r as nat);
            assert(views_of(result@) =~= combos(s@, r as nat));
        }
        result
    } else {
        proof {
            assert(s@.drop_first() =~= cards@.skip(start as int + 1));
            assert(s@.first() == cards@[start as int]);
        }
        let head = cards[start];
        let ghost tail = s@.drop_first();
        let ghost prepend = |t: Seq<Card>| seq![s@.first()] + t;
        let ghost mapped = combos(tail, (r - 1) as nat).map_values(prepend);

        let with_head = combos_from(cards, start + 1, r - 1);
        let mut result: Vec<Vec<Card>> = Vec::new();
        let mut i: usize = 0;
        while i < with_head.len()
            invariant
                i <= with_head@.len(),
                views_of(with_head@) == combos(tail, (r - 1) as nat),
                mapped == combos(tail, (r - 1) as nat).map_values(prepend),
                prepend == (|t: Seq<Card>| seq![head] + t),
                views_of(result@) =~= mapped.take(i as int),
            decreases with_head@.len() - i,
        {
            let t = &with_head[i];
            let mut nv: Vec<Card> = Vec::new();
            nv.push(head);
            let mut j: usize = 0;
            while j < t.len()
                invariant
                    j <= t@.len(),
                    nv@ =~= seq![head] + t@.take(j as int),
                decreases t@.len() - j,
            {
                nv.push(t[j]);
                proof {
                    assert(t@.take(j + 1) =~= t@.take(j as int).push(t@[j as int]));
                }
                j += 1;
            }
            proof {
                assert(t@.take(t@.len() as int) =~= t@);
                assert(nv@ =~= seq![head] + t@);
                assert(mapped[i as int] == prepend(views_of(with_head@)[i as int]));
            }
            result.push(nv);
            proof {
                assert(views_of(result@) =~= mapped.take(i + 1)) by {
                    assert(mapped.take(i + 1) =~= mapped.take(i as int).push(mapped[i as int]));
                    assert(views_of(result@) =~= views_of(result@.take(result@.len() - 1)).push(
                        nv@,
                    ));
                }
            }
            i += 1;
        }
        proof {
            assert(mapped.take(mapped.len() as int) =~= mapped);
        }
        let without_head = combos_from(cards, start + 1, r);
        let mut k: usize = 0;
        while k < without_head.len()
            invariant
                k <= without_head@.len(),
                views_of(without_head@) == combos(tail, r as nat),
                mapped == combos(tail, (r - 1) as nat).map_values(prepend),
                views_of(result@) =~= mapped + combos(tail, r as nat).take(k as int),
            decreases without_head@.len() - k,
        {
            let nv = without_head[k].clone();
            proof {
                assert(nv@ == views_of(without_head@)[k as int]);
            }
            let ghost r_prev = result@;
            result.push(nv);
            proof {
                let whole = mapped + combos(tail, r as nat).take(k + 1);
                assert(views_of(r_prev).len() == r_prev.len());
                assert(views_of(r_prev) == mapped + combos(tail, r as nat).take(k as int));
                assert(r_prev.len() == mapped.len() + k);
                assert forall|m: int| 0 <= m < result@.len() implies #[trigger] views_of(result@)[m]
                    == whole[m] by {
                    assert(views_of(result@)[m] == result@[m]@);
                    if m < r_prev.len() {
                        assert(result@[m] == r_prev[m]);
                        assert(views_of(r_prev)[m] == r_prev[m]@);
                        assert((mapped + combos(tail, r as nat).take(k as int))[m] == whole[m]);
                    } else {
                        assert(m == mapped.len() + k);
                        assert(result@[m] == nv);
                        assert(whole[m] == combos(tail, r as nat).take(k + 1)[k as int]);
                        assert(whole[m] == combos(tail, r as nat)[k as int]);
                    }
                }
                assert(views_of(result@) =~= whole);
            }
            k += 1;
        }
        proof {
            assert(combos(tail, r as nat).take(combos(tail, r as nat).len() as int) =~= combos(
                tail,
                r as nat,
            ));
            assert(views_of(result@) =~= combos(s@, r as nat));
        }
        result
    }
}

/// Every subset of size `r` drawn from the given cards, as a list of
/// card lists, each in the order the cards have in the input. The list
/// is exhaustive — `lemma_combos_sound` and `lemma_combos_complete` say
/// exactly which subsequences appear — and is empty when fewer than `r`
/// cards are given.
pub fn combinations(cards: &Vec<Card>, r: usize) -> (result: Vec<Vec<Card>>)
    ensures
        views_of(result@) == combos(cards@, r as nat),
{
    let result = combos_from(cards, 0, r);
    proof {
        assert(cards@.skip(0) =~= cards@);
    }
    result
}

} // verus!
