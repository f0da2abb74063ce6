//! The arm pool and the two indexes over it, as contracts see them: what it
//! means that the three agree, and how one evaluation changes them.

use crate::arm::{
    is_made, is_pulled_times, lemma_pulled_times_chain, Arm, ArmView, Numerics, OptimizationFn,
};
use crate::float_key::FloatKey;
use crate::genetic::{within_bounds, GeneticView};
use crate::sorted_multi_map::{deleted, inserted};
use vstd::prelude::*;

verus! {

/// The rank entries that a pool calls for: one for each arm, of the arm's
/// mean and the arm's index.
pub open spec fn rank_entries(arms: Seq<Arm>) -> Seq<(FloatKey, i32)> {
    Seq::new(arms.len(), |i: int| (arms[i]@.mean_reward, i as i32))
}

/// The rank index holds one entry for each arm of the pool and no other, the
/// key of each the arm's mean.
pub open spec fn ranks_match(arms: Seq<Arm>, ranks: Seq<(FloatKey, i32)>) -> bool {
    ranks.to_multiset() == rank_entries(arms).to_multiset()
}

/// The deduplication index holds the vectors of the pool and no others, and
/// leads from each to an arm that has it.
pub open spec fn lookup_matches(arms: Seq<Arm>, lookup: Map<Seq<i32>, i32>) -> bool {
    &&& lookup.dom().finite()
    &&& lookup.dom().len() <= arms.len()
    &&& forall|i: int|
        0 <= i < arms.len() ==> lookup.contains_key((#[trigger] arms[i])@.action_vector)
    &&& forall|v: Seq<i32>| #[trigger]
        lookup.contains_key(v) ==> 0 <= lookup[v] < arms.len() && arms[lookup[v] as int]@.action_vector
            == v
}

/// Every arm of the pool was pulled and lies between the bounds.
pub open spec fn arms_valid(arms: Seq<Arm>, config: GeneticView) -> bool {
    forall|i: int|
        0 <= i < arms.len() ==> {
            &&& (#[trigger] arms[i])@.num_pulls >= 1
            &&& within_bounds(arms[i]@.action_vector, config.lower_bound, config.upper_bound)
        }
}

/// The pulls of all arms of a pool together: the evaluations spent on it.
pub open spec fn total_pulls(arms: Seq<Arm>) -> int
    decreases arms.len(),
{
    if arms.len() == 0 {
        0
    } else {
        total_pulls(arms.drop_last()) + arms.last()@.num_pulls
    }
}

/// The greatest number of pulls of any arm of a pool; 0 for an empty pool.
pub open spec fn max_pulls(arms: Seq<Arm>) -> int
    decreases arms.len(),
{
    if arms.len() == 0 {
        0
    } else if arms.last()@.num_pulls > max_pulls(arms.drop_last()) {
        arms.last()@.num_pulls
    } else {
        max_pulls(arms.drop_last())
    }
}

/// The later pool holds the arms of the earlier one at their indices, with
/// their vectors and no fewer pulls; it may hold more arms behind them.
pub open spec fn extends(later: Seq<Arm>, earlier: Seq<Arm>) -> bool {
    &&& earlier.len() <= later.len()
    &&& forall|i: int|
        0 <= i < earlier.len() ==> {
            &&& (#[trigger] later[i])@.action_vector == earlier[i]@.action_vector
            &&& later[i]@.num_pulls >= earlier[i]@.num_pulls
        }
}

/// The pool and the rank index after arm `index` was pulled once more: the
/// arm keeps its vector and has one pull more, the other arms are as they
/// were, and the arm's rank entry has left its old place for that of the new mean.
pub open spec fn resampled(
    before: Seq<Arm>,
    ranks_before: Seq<(FloatKey, i32)>,
    after: Seq<Arm>,
    ranks_after: Seq<(FloatKey, i32)>,
    index: int,
) -> bool {
    &&& after.len() == before.len()
    &&& forall|k: int| 0 <= k < before.len() && k != index ==> #[trigger] after[k] == before[k]
    &&& after[index]@.action_vector == before[index]@.action_vector
    &&& after[index]@.num_pulls == before[index]@.num_pulls + 1
    &&& ranks_after == inserted(
        deleted(ranks_before, before[index]@.mean_reward, index as i32),
        after[index]@.mean_reward,
        index as i32,
    )
}

/// The pool and the rank index after a new arm was made of `vector` and
/// pulled once: it stands behind the arms that were there, which are as they
/// were, and has an entry in the rank index under its mean.
pub open spec fn created(
    before: Seq<Arm>,
    ranks_before: Seq<(FloatKey, i32)>,
    after: Seq<Arm>,
    ranks_after: Seq<(FloatKey, i32)>,
    vector: Seq<i32>,
) -> bool {
    &&& after.len() == before.len() + 1
    &&& after.drop_last() == before
    &&& after.last()@.action_vector == vector
    &&& after.last()@.num_pulls == 1
    &&& ranks_after == inserted(ranks_before, after.last()@.mean_reward, before.len() as i32)
}

/// The deduplication index after arms were made: it holds what it held; it
/// leads from the vector of each arm made to that arm; and it has as many
/// vectors more as the pool has arms more.
pub open spec fn indexes_new_arms(
    before: Seq<Arm>,
    lookup_before: Map<Seq<i32>, i32>,
    after: Seq<Arm>,
    lookup_after: Map<Seq<i32>, i32>,
) -> bool {
    &&& forall|v: Seq<i32>| #[trigger]
        lookup_before.contains_key(v) ==> lookup_after.contains_key(v) && lookup_after[v]
            == lookup_before[v]
    &&& forall|i: int|
        before.len() <= i < after.len() ==> lookup_after.contains_key(
            (#[trigger] after[i])@.action_vector,
        ) && lookup_after[after[i]@.action_vector] == i
    &&& lookup_after.dom().len() - lookup_before.dom().len() == after.len() - before.len()
}

/// The arms that were made have vectors that no other arm of the pool has,
/// neither an older one nor another that was made.
pub proof fn lemma_new_arms_distinct(
    before: Seq<Arm>,
    lookup_before: Map<Seq<i32>, i32>,
    after: Seq<Arm>,
    lookup_after: Map<Seq<i32>, i32>,
)
    requires
        lookup_matches(before, lookup_before),
        extends(after, before),
        indexes_new_arms(before, lookup_before, after, lookup_after),
    ensures
        forall|i: int, j: int|
            before.len() <= i < after.len() && 0 <= j < after.len() && i != j ==> (
            #[trigger] after[i])@.action_vector != (#[trigger] after[j])@.action_vector,
{
    assert forall|i: int, j: int|
        before.len() <= i < after.len() && 0 <= j < after.len() && i != j implies (
    #[trigger] after[i])@.action_vector != (#[trigger] after[j])@.action_vector by {
        let v = after[i]@.action_vector;
        if after[j]@.action_vector == v {
            if j < before.len() {
                assert(before[j]@.action_vector == v);
                assert(lookup_before.contains_key(v));
                assert(lookup_after[v] == lookup_before[v]);
            }
        }
    }
}

/// What holds of the index while arms are made holds over two such spans together.
pub proof fn lemma_indexes_new_arms_chain(
    first: Seq<Arm>,
    lookup_first: Map<Seq<i32>, i32>,
    middle: Seq<Arm>,
    lookup_middle: Map<Seq<i32>, i32>,
    last: Seq<Arm>,
    lookup_last: Map<Seq<i32>, i32>,
)
    requires
        indexes_new_arms(first, lookup_first, middle, lookup_middle),
        indexes_new_arms(middle, lookup_middle, last, lookup_last),
        extends(middle, first),
        extends(last, middle),
    ensures
        indexes_new_arms(first, lookup_first, last, lookup_last),
{
    assert forall|i: int| first.len() <= i < last.len() implies lookup_last.contains_key(
        (#[trigger] last[i])@.action_vector,
    ) && lookup_last[last[i]@.action_vector] == i by {
        if i < middle.len() {
            let v = middle[i]@.action_vector;
            assert(lookup_middle.contains_key(v));
            assert(last[i]@.action_vector == v);
        }
    }
}

/// What evaluations made of a pool: each arm of the earlier pool is, in the
/// later one, what as many pulls made of it as it has more pulls; each arm
/// behind them is what its pulls made of an unpulled arm. So every pull that
/// the later pool counts more was one evaluation of the objective at the
/// arm's vector, folded into the arm's mean.
pub open spec fn pulls_made<F: OptimizationFn, N: Numerics>(
    opti_function: &F,
    numerics: &N,
    before: Seq<Arm>,
    after: Seq<Arm>,
) -> bool {
    &&& before.len() <= after.len()
    &&& forall|i: int|
        0 <= i < before.len() ==> (#[trigger] after[i])@.num_pulls >= before[i]@.num_pulls
            && is_pulled_times(
            opti_function,
            numerics,
            before[i]@,
            after[i]@,
            (after[i]@.num_pulls - before[i]@.num_pulls) as nat,
        )
    &&& forall|i: int|
        before.len() <= i < after.len() ==> is_made(
            opti_function,
            numerics,
            (#[trigger] after[i])@,
        )
}

/// What evaluations made of a pool, and further evaluations of that, is
/// what evaluations made of the first pool.
pub proof fn lemma_pulls_made_chain<F: OptimizationFn, N: Numerics>(
    opti_function: &F,
    numerics: &N,
    first: Seq<Arm>,
    middle: Seq<Arm>,
    last: Seq<Arm>,
)
    requires
        pulls_made(opti_function, numerics, first, middle),
        pulls_made(opti_function, numerics, middle, last),
    ensures
        pulls_made(opti_function, numerics, first, last),
{
    assert forall|i: int| 0 <= i < first.len() implies (#[trigger] last[i])@.num_pulls
        >= first[i]@.num_pulls && is_pulled_times(
        opti_function,
        numerics,
        first[i]@,
        last[i]@,
        (last[i]@.num_pulls - first[i]@.num_pulls) as nat,
    ) by {
        assert(middle[i]@.num_pulls >= first[i]@.num_pulls);
        lemma_pulled_times_chain(
            opti_function,
            numerics,
            first[i]@,
            middle[i]@,
            last[i]@,
            (middle[i]@.num_pulls - first[i]@.num_pulls) as nat,
            (last[i]@.num_pulls - middle[i]@.num_pulls) as nat,
        );
    }
    assert forall|i: int| first.len() <= i < last.len() implies is_made(
        opti_function,
        numerics,
        (#[trigger] last[i])@,
    ) by {
        if i < middle.len() {
            assert(is_made(opti_function, numerics, middle[i]@));
            let fresh = choose|fresh: ArmView|
                fresh.num_pulls == 0 && middle[i]@.num_pulls >= 0 && #[trigger] is_pulled_times(
                    opti_function,
                    numerics,
                    fresh,
                    middle[i]@,
                    middle[i]@.num_pulls as nat,
                );
            lemma_pulled_times_chain(
                opti_function,
                numerics,
                fresh,
                middle[i]@,
                last[i]@,
                middle[i]@.num_pulls as nat,
                (last[i]@.num_pulls - middle[i]@.num_pulls) as nat,
            );
        }
    }
}

/// Each entry of a matching rank index names an arm and has its mean as key.
pub proof fn lemma_rank_entry(arms: Seq<Arm>, ranks: Seq<(FloatKey, i32)>, j: int)
    requires
        ranks_match(arms, ranks),
        arms.len() <= i32::MAX,
        0 <= j < ranks.len(),
    ensures
        0 <= ranks[j].1 < arms.len(),
        ranks[j].0 == arms[ranks[j].1 as int]@.mean_reward,
{
    broadcast use vstd::seq_lib::group_to_multiset_ensures;

    let e = ranks[j];
    assert(rank_entries(arms).to_multiset().count(e) > 0);
}

/// A matching rank index has as many entries as the pool has arms, and the
/// entry of each arm is among them.
pub proof fn lemma_ranked(arms: Seq<Arm>, ranks: Seq<(FloatKey, i32)>)
    requires
        ranks_match(arms, ranks),
        arms.len() <= i32::MAX,
    ensures
        ranks.len() == arms.len(),
        forall|i: int|
            0 <= i < arms.len() ==> ranks.contains((#[trigger] arms[i]@.mean_reward, i as i32)),
{
    broadcast use vstd::seq_lib::group_to_multiset_ensures;

    vstd::seq_lib::to_multiset_len(ranks);
    assert forall|i: int| 0 <= i < arms.len() implies ranks.contains(
        (#[trigger] arms[i]@.mean_reward, i as i32),
    ) by {
        let e = (arms[i]@.mean_reward, i as i32);
        assert(rank_entries(arms)[i] == e);
        assert(ranks.to_multiset().count(e) > 0);
    }
}

/// In a matching rank index each arm has one entry and no more: no two
/// entries name one arm.
pub proof fn lemma_ranked_once(arms: Seq<Arm>, ranks: Seq<(FloatKey, i32)>)
    requires
        ranks_match(arms, ranks),
        arms.len() <= i32::MAX,
    ensures
        ranks.no_duplicates(),
        forall|j: int, k: int| 0 <= j < k < ranks.len() ==> ranks[j].1 != ranks[k].1,
{
    let entries = rank_entries(arms);
    entries.lemma_multiset_has_no_duplicates();
    ranks.lemma_multiset_has_no_duplicates_conv();
    assert forall|j: int, k: int| 0 <= j < k < ranks.len() implies ranks[j].1 != ranks[k].1 by {
        lemma_rank_entry(arms, ranks, j);
        lemma_rank_entry(arms, ranks, k);
    }
}

/// Where every arm was pulled, no arm has more pulls than all together, and
/// there are no more arms than pulls.
pub proof fn lemma_total_pulls_bounds(arms: Seq<Arm>)
    requires
        forall|i: int| 0 <= i < arms.len() ==> (#[trigger] arms[i])@.num_pulls >= 1,
    ensures
        arms.len() <= total_pulls(arms),
        forall|i: int| 0 <= i < arms.len() ==> (#[trigger] arms[i])@.num_pulls <= total_pulls(arms),
    decreases arms.len(),
{
    if arms.len() > 0 {
        let front = arms.drop_last();
        lemma_total_pulls_bounds(front);
        assert forall|i: int| 0 <= i < arms.len() implies (#[trigger] arms[i])@.num_pulls
            <= total_pulls(arms) by {
            if i < front.len() {
                assert(front[i] == arms[i]);
            }
        }
    }
}

/// One more arm adds its pulls to the total.
pub proof fn lemma_total_pulls_push(arms: Seq<Arm>, arm: Arm)
    ensures
        total_pulls(arms.push(arm)) == total_pulls(arms) + arm@.num_pulls,
{
    assert(arms.push(arm).drop_last() =~= arms);
}

/// An arm replaced changes the total by the difference of the pulls.
pub proof fn lemma_total_pulls_update(arms: Seq<Arm>, i: int, arm: Arm)
    requires
        0 <= i < arms.len(),
    ensures
        total_pulls(arms.update(i, arm)) == total_pulls(arms) - arms[i]@.num_pulls
            + arm@.num_pulls,
    decreases arms.len(),
{
    let front = arms.drop_last();
    if i == arms.len() - 1 {
        assert(arms.update(i, arm).drop_last() =~= front);
    } else {
        lemma_total_pulls_update(front, i, arm);
        assert(arms.update(i, arm).drop_last() =~= front.update(i, arm));
    }
}

/// No arm has more pulls than `max_pulls` says, and in a pool whose arms were
/// pulled some arm has as many.
pub proof fn lemma_max_pulls(arms: Seq<Arm>)
    ensures
        forall|i: int| 0 <= i < arms.len() ==> (#[trigger] arms[i])@.num_pulls <= max_pulls(arms),
        max_pulls(arms) >= 0,
        max_pulls(arms) > 0 ==> exists|i: int|
            0 <= i < arms.len() && (#[trigger] arms[i])@.num_pulls == max_pulls(arms),
    decreases arms.len(),
{
    if arms.len() > 0 {
        let front = arms.drop_last();
        lemma_max_pulls(front);
        assert forall|i: int| 0 <= i < arms.len() implies (#[trigger] arms[i])@.num_pulls
            <= max_pulls(arms) by {
            if i < front.len() {
                assert(front[i] == arms[i]);
            }
        }
    }
}

/// A copy of a vector.
pub fn copy_vector(v: &[i32]) -> (copy: Vec<i32>)
    ensures
        copy@ == v@,
{
    let mut copy: Vec<i32> = Vec::new();
    let mut i: usize = 0;
    while i < v.len()
        invariant
            i <= v@.len(),
            copy@ == v@.take(i as int),
        decreases v@.len() - i,
    {
        copy.push(v[i]);
        i = i + 1;
    }
    copy
}

} // verus!
