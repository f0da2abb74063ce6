//! The final choice: the non-dominated front of the rank index, and the scan
//! of the front for the least score.

use crate::arm::{Arm, Numerics};
use crate::float_key::FloatKey;
use crate::pool::{lemma_max_pulls, lemma_ranked, max_pulls, ranks_match};
use crate::sorted_multi_map::is_sorted;
use vstd::prelude::*;

verus! {

/// The first `n` entries of the rank index are the non-dominated front: the
/// last of them is of an arm with the most pulls, and none before it is.
pub open spec fn is_front_len(arms: Seq<Arm>, ranks: Seq<(FloatKey, i32)>, n: int) -> bool {
    &&& 1 <= n <= ranks.len()
    &&& arms[ranks[n - 1].1 as int]@.num_pulls == max_pulls(arms)
    &&& forall|j: int|
        0 <= j < n - 1 ==> arms[(#[trigger] ranks[j]).1 as int]@.num_pulls != max_pulls(arms)
}

/// The number of entries in the non-dominated front.
pub open spec fn front_len(arms: Seq<Arm>, ranks: Seq<(FloatKey, i32)>) -> int {
    choose|n: int| is_front_len(arms, ranks, n)
}

/// The non-dominated front: the entries of the rank index from the least
/// mean up to the first arm that has the most pulls, that one included.
pub open spec fn front(arms: Seq<Arm>, ranks: Seq<(FloatKey, i32)>) -> Seq<(FloatKey, i32)> {
    ranks.take(front_len(arms, ranks))
}

/// The scan for the least score: the arm and the score that stand after the
/// entries of the front were gone through in order. It starts from arm 0 and
/// the largest finite score; an entry takes over where its score is a number
/// and less than the least so far.
pub open spec fn best_scored(front: Seq<(FloatKey, i32)>, scores: Seq<Option<FloatKey>>) -> (
    i32,
    int,
)
    decreases front.len(),
{
    if front.len() == 0 {
        (0i32, crate::float_key::MAX_FINITE_BITS as int)
    } else {
        let (best, least) = best_scored(front.drop_last(), scores.drop_last());
        match scores.last() {
            Some(score) => if score@ < least {
                (front.last().1, score@)
            } else {
                (best, least)
            },
            None => (best, least),
        }
    }
}

/// The final choice for a pool, its rank index and the scores of the entries
/// of the front.
pub open spec fn selected(
    arms: Seq<Arm>,
    ranks: Seq<(FloatKey, i32)>,
    scores: Seq<Option<FloatKey>>,
) -> i32 {
    let f = front(arms, ranks);
    if f.first().0 == f.last().0 {
        f.last().1
    } else {
        best_scored(f, scores).0
    }
}

/// The scores are those of the entries of the front: each is what
/// `confidence_bound` gave for the mean of the entry's arm, the means at the
/// two ends of the front, the number of evaluations spent and the pulls of
/// the arm.
pub open spec fn is_scored<N: Numerics>(
    numerics: &N,
    arms: Seq<Arm>,
    front: Seq<(FloatKey, i32)>,
    simulations_used: usize,
    scores: Seq<Option<FloatKey>>,
) -> bool {
    &&& scores.len() == front.len()
    &&& forall|k: int|
        0 <= k < front.len() ==> call_ensures(
            N::confidence_bound,
            (
                numerics,
                arms[front[k].1 as int]@.mean_reward,
                front.first().0,
                front.last().0,
                simulations_used,
                arms[front[k].1 as int]@.num_pulls as i32,
            ),
            #[trigger] scores[k],
        )
}

/// The final choice after `simulations_used` evaluations. Where the means at
/// the two ends of the front are equal it is the arm at the end of the front.
/// Else it is what the scan for the least score gives for the scores of the
/// entries of the front.
pub open spec fn is_final_choice<N: Numerics>(
    numerics: &N,
    arms: Seq<Arm>,
    ranks: Seq<(FloatKey, i32)>,
    simulations_used: usize,
    index: i32,
) -> bool {
    let f = front(arms, ranks);
    if f.first().0 == f.last().0 {
        index == f.last().1
    } else {
        exists|scores: Seq<Option<FloatKey>>| #[trigger]
            is_scored(numerics, arms, f, simulations_used, scores) && index == best_scored(
                f,
                scores,
            ).0
    }
}

/// What the final choice may return for a pool and its rank index: the final
/// choice for some scores, one for each entry of the front.
pub open spec fn is_selection(arms: Seq<Arm>, ranks: Seq<(FloatKey, i32)>, index: i32) -> bool {
    exists|scores: Seq<Option<FloatKey>>|
        scores.len() == front(arms, ranks).len() && index == #[trigger] selected(
            arms,
            ranks,
            scores,
        )
}

/// A pool whose arms were pulled has a front under a matching rank index.
pub proof fn lemma_front_exists(arms: Seq<Arm>, ranks: Seq<(FloatKey, i32)>)
    requires
        1 <= arms.len() <= i32::MAX,
        ranks_match(arms, ranks),
        forall|i: int| 0 <= i < arms.len() ==> (#[trigger] arms[i])@.num_pulls >= 1,
    ensures
        is_front_len(arms, ranks, front_len(arms, ranks)),
{
    lemma_max_pulls(arms);
    lemma_ranked(arms, ranks);
    let i = choose|i: int|
        0 <= i < arms.len() && (#[trigger] arms[i])@.num_pulls == max_pulls(arms);
    let e = (arms[i]@.mean_reward, i as i32);
    let j = choose|j: int| 0 <= j < ranks.len() && ranks[j] == e;
    lemma_first_with_max(arms, ranks, j + 1);
}

/// Among the first `upto` entries of the rank index, if one is of an arm with
/// the most pulls, a front ends at or before it.
proof fn lemma_first_with_max(arms: Seq<Arm>, ranks: Seq<(FloatKey, i32)>, upto: int)
    requires
        1 <= upto <= ranks.len(),
        arms[ranks[upto - 1].1 as int]@.num_pulls == max_pulls(arms),
    ensures
        exists|n: int| 1 <= n <= upto && is_front_len(arms, ranks, n),
    decreases upto,
{
    if exists|j: int|
        0 <= j < upto - 1 && arms[(#[trigger] ranks[j]).1 as int]@.num_pulls == max_pulls(arms) {
        let j = choose|j: int|
            0 <= j < upto - 1 && arms[(#[trigger] ranks[j]).1 as int]@.num_pulls == max_pulls(
                arms,
            );
        lemma_first_with_max(arms, ranks, j + 1);
    } else {
        assert(is_front_len(arms, ranks, upto));
    }
}

/// Two lengths that both make a front are one.
pub proof fn lemma_front_unique(arms: Seq<Arm>, ranks: Seq<(FloatKey, i32)>, n: int, m: int)
    requires
        is_front_len(arms, ranks, n),
        is_front_len(arms, ranks, m),
    ensures
        n == m,
{
}

/// In a sorted rank index the front begins with the least mean of all arms
/// and ends with the greatest mean of the front.
pub proof fn lemma_front_means(arms: Seq<Arm>, ranks: Seq<(FloatKey, i32)>)
    requires
        1 <= arms.len() <= i32::MAX,
        ranks_match(arms, ranks),
        is_sorted(ranks),
        forall|i: int| 0 <= i < arms.len() ==> (#[trigger] arms[i])@.num_pulls >= 1,
    ensures
        forall|i: int|
            0 <= i < arms.len() ==> front(arms, ranks).first().0@ <= (#[trigger] arms[i])@.mean_reward@,
        forall|j: int|
            0 <= j < front(arms, ranks).len() ==> (#[trigger] front(arms, ranks)[j]).0@ <= front(
                arms,
                ranks,
            ).last().0@,
{
    lemma_front_exists(arms, ranks);
    lemma_ranked(arms, ranks);
}

/// What the scan for the least score gives. The least score is not above the
/// largest finite one nor above any score that is a number. Where no score is
/// below the largest finite one, arm 0 stays. Else the arm is that of the
/// first entry whose score is the least.
pub proof fn lemma_best_scored(front: Seq<(FloatKey, i32)>, scores: Seq<Option<FloatKey>>)
    requires
        scores.len() == front.len(),
    ensures
        best_scored(front, scores).1 <= crate::float_key::MAX_FINITE_BITS,
        forall|j: int|
            0 <= j < scores.len() && (#[trigger] scores[j]) is Some ==> best_scored(front, scores).1
                <= scores[j]->0@,
        best_scored(front, scores).1 == crate::float_key::MAX_FINITE_BITS ==> best_scored(
            front,
            scores,
        ).0 == 0,
        best_scored(front, scores).1 < crate::float_key::MAX_FINITE_BITS ==> exists|j: int|
            {
                &&& 0 <= j < front.len()
                &&& best_scored(front, scores).0 == (#[trigger] front[j]).1
                &&& scores[j] is Some
                &&& scores[j]->0@ == best_scored(front, scores).1
                &&& forall|k: int|
                    0 <= k < j && (#[trigger] scores[k]) is Some ==> scores[k]->0@ > best_scored(
                        front,
                        scores,
                    ).1
            },
    decreases front.len(),
{
    if front.len() > 0 {
        let f = front.drop_last();
        let s = scores.drop_last();
        lemma_best_scored(f, s);
        let (best, least) = best_scored(f, s);
        let last = front.len() - 1;
        assert forall|j: int| 0 <= j < scores.len() && (#[trigger] scores[j]) is Some implies best_scored(
            front,
            scores,
        ).1 <= scores[j]->0@ by {
            if j < last {
                assert(s[j] == scores[j]);
            }
        }
        if best_scored(front, scores).1 < crate::float_key::MAX_FINITE_BITS {
            if scores.last() is Some && scores.last()->0@ < least {
                assert forall|k: int| 0 <= k < last && (#[trigger] scores[k]) is Some implies scores[k]->0@
                    > best_scored(front, scores).1 by {
                    assert(s[k] == scores[k]);
                }
            } else {
                let j = choose|j: int|
                    {
                        &&& 0 <= j < f.len()
                        &&& best == (#[trigger] f[j]).1
                        &&& s[j] is Some
                        &&& s[j]->0@ == least
                        &&& forall|k: int|
                            0 <= k < j && (#[trigger] s[k]) is Some ==> s[k]->0@ > least
                    };
                assert forall|k: int| 0 <= k < j && (#[trigger] scores[k]) is Some implies scores[k]->0@
                    > least by {
                    assert(s[k] == scores[k]);
                }
            }
        }
    }
}

/// Two pools whose arms have the same pulls have the same greatest number of pulls.
proof fn lemma_max_pulls_equal(arms: Seq<Arm>, other: Seq<Arm>)
    requires
        other.len() == arms.len(),
        forall|i: int|
            0 <= i < arms.len() ==> (#[trigger] arms[i])@.num_pulls == other[i]@.num_pulls,
    ensures
        max_pulls(arms) == max_pulls(other),
    decreases arms.len(),
{
    if arms.len() > 0 {
        lemma_max_pulls_equal(arms.drop_last(), other.drop_last());
    }
}

/// The final choice depends on the rank index, on the pulls of the arms and
/// on the scores, and on nothing else: for two pools under one rank index
/// whose arms have the same pulls, and for the same scores, it is one arm.
pub proof fn lemma_selection_deterministic(
    arms: Seq<Arm>,
    other: Seq<Arm>,
    ranks: Seq<(FloatKey, i32)>,
    scores: Seq<Option<FloatKey>>,
)
    requires
        1 <= arms.len() <= i32::MAX,
        other.len() == arms.len(),
        ranks_match(arms, ranks),
        ranks_match(other, ranks),
        forall|i: int|
            0 <= i < arms.len() ==> 1 <= (#[trigger] arms[i])@.num_pulls == other[i]@.num_pulls,
    ensures
        front(arms, ranks) == front(other, ranks),
        selected(arms, ranks, scores) == selected(other, ranks, scores),
{
    lemma_max_pulls_equal(arms, other);
    lemma_front_exists(arms, ranks);
    let n = front_len(arms, ranks);
    assert(is_front_len(other, ranks, n)) by {
        assert forall|j: int| 0 <= j < ranks.len() implies arms[(#[trigger] ranks[j]).1 as int]@.num_pulls
            == other[ranks[j].1 as int]@.num_pulls by {
            crate::pool::lemma_rank_entry(arms, ranks, j);
        }
    }
}

/// The arm that the scan for the least score gives.
pub fn select_best(front: &Vec<(FloatKey, i32)>, scores: &Vec<Option<FloatKey>>) -> (best: i32)
    requires
        front@.len() == scores@.len(),
    ensures
        best == best_scored(front@, scores@).0,
{
    let mut best: i32 = 0;
    let mut least: FloatKey = FloatKey::max_finite();
    let mut j: usize = 0;
    while j < front.len()
        invariant
            front@.len() == scores@.len(),
            j <= front@.len(),
            (best, least@) == best_scored(front@.take(j as int), scores@.take(j as int)),
        decreases front@.len() - j,
    {
        proof {
            assert(front@.take(j + 1).drop_last() =~= front@.take(j as int));
            assert(scores@.take(j + 1).drop_last() =~= scores@.take(j as int));
        }
        match scores[j] {
            Some(score) => {
                if score.lt(&least) {
                    best = front[j].1;
                    least = score;
                }
            },
            None => {},
        }
        j = j + 1;
    }
    proof {
        assert(front@.take(front@.len() as int) =~= front@);
        assert(scores@.take(scores@.len() as int) =~= scores@);
    }
    best
}

} // verus!
