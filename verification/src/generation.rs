//! One generation of the search: what is drawn up, and how many evaluations
//! it calls for.

use crate::arm::{Arm, Numerics, OptimizationFn};
use crate::float_key::FloatKey;
use crate::genetic::GeneticView;
use crate::pool::{extends, indexes_new_arms, pulls_made, total_pulls};
use vstd::prelude::*;

verus! {

/// What one generation works on.
pub struct Generation {
    /// The indices of the best arms, in rank order.
    pub current_indexes: Vec<i32>,
    /// Copies of the best arms, in shuffled order.
    pub population: Vec<Arm>,
    /// What crossover and mutation made of the population: the proposals.
    pub proposals: Vec<Arm>,
}

/// The arm indices of the first `count` entries of the rank index.
pub open spec fn elite_indexes(ranks: Seq<(FloatKey, i32)>, count: int) -> Seq<i32> {
    Seq::new(count as nat, |k: int| ranks[k].1)
}

/// The population holds the arms named by `order`, which holds the current
/// indices in some order.
pub open spec fn is_drawn(
    arms: Seq<Arm>,
    current: Seq<i32>,
    order: Seq<i32>,
    population: Seq<Arm>,
) -> bool {
    &&& order.to_multiset() == current.to_multiset()
    &&& population.len() == order.len()
    &&& forall|k: int|
        0 <= k < population.len() ==> 0 <= order[k] < arms.len() && (#[trigger] population[k])@
            == arms[order[k] as int]@
}

/// The proposals are what mutation made of `crossed`, which is what crossover
/// made of the population.
pub open spec fn is_proposed(
    population: Seq<Arm>,
    crossed: Seq<Arm>,
    proposals: Seq<Arm>,
    config: GeneticView,
) -> bool {
    &&& crate::genetic::is_crossover(population, crossed, config.dimension as int)
    &&& crate::genetic::is_mutated(crossed, proposals, config.lower_bound, config.upper_bound)
}

/// What a generation is, for a pool and its rank index: the current indices
/// are those of the best arms, as many as a population has, in rank order;
/// the population holds these arms in some order; the proposals come from
/// the population by crossover and mutation.
pub open spec fn is_generation(
    arms: Seq<Arm>,
    ranks: Seq<(FloatKey, i32)>,
    config: GeneticView,
    current: Seq<i32>,
    population: Seq<Arm>,
    proposals: Seq<Arm>,
) -> bool {
    &&& current == elite_indexes(ranks, config.population_size as int)
    &&& exists|order: Seq<i32>| #[trigger] is_drawn(arms, current, order, population)
    &&& exists|crossed: Seq<Arm>| #[trigger] is_proposed(population, crossed, proposals, config)
}

/// What the evaluation of a generation needs: the current indices name arms
/// of the pool; the deduplication index holds the vector of each arm of the
/// population; the proposals are unpulled, lie between the bounds, and no two
/// are equal.
pub open spec fn fits(
    arms: Seq<Arm>,
    lookup: Map<Seq<i32>, i32>,
    config: GeneticView,
    current: Seq<i32>,
    population: Seq<Arm>,
    proposals: Seq<Arm>,
) -> bool {
    &&& forall|k: int| 0 <= k < current.len() ==> 0 <= #[trigger] current[k] < arms.len()
    &&& forall|k: int|
        0 <= k < population.len() ==> lookup.contains_key(
            (#[trigger] population[k])@.action_vector,
        )
    &&& crate::genetic::all_fresh(proposals)
    &&& crate::genetic::all_within_bounds(proposals, config.lower_bound, config.upper_bound)
    &&& crate::genetic::vectors_of(proposals).no_duplicates()
}

/// The index that a deduplication index gives for a vector; -1 where it holds none.
pub open spec fn index_of(lookup: Map<Seq<i32>, i32>, v: Seq<i32>) -> i32 {
    if lookup.contains_key(v) {
        lookup[v]
    } else {
        -1i32
    }
}

/// Whether a proposal is evaluated: it is unless its vector is that of one of
/// the current arms.
pub open spec fn is_wanted(lookup: Map<Seq<i32>, i32>, current: Seq<i32>, v: Seq<i32>) -> bool {
    !current.contains(index_of(lookup, v))
}

/// The number of proposals that are evaluated.
pub open spec fn wanted_count(
    lookup: Map<Seq<i32>, i32>,
    current: Seq<i32>,
    proposals: Seq<Arm>,
) -> nat
    decreases proposals.len(),
{
    if proposals.len() == 0 {
        0
    } else {
        wanted_count(lookup, current, proposals.drop_last()) + if is_wanted(
            lookup,
            current,
            proposals.last()@.action_vector,
        ) {
            1nat
        } else {
            0nat
        }
    }
}

/// The number of proposals whose vector the deduplication index does not hold.
pub open spec fn unknown_count(lookup: Map<Seq<i32>, i32>, proposals: Seq<Arm>) -> nat
    decreases proposals.len(),
{
    if proposals.len() == 0 {
        0
    } else {
        unknown_count(lookup, proposals.drop_last()) + if lookup.contains_key(
            proposals.last()@.action_vector,
        ) {
            0nat
        } else {
            1nat
        }
    }
}

/// The vectors of the proposals that are evaluated, in their order.
pub open spec fn wanted_vectors(
    lookup: Map<Seq<i32>, i32>,
    current: Seq<i32>,
    proposals: Seq<Arm>,
) -> Seq<Seq<i32>>
    decreases proposals.len(),
{
    if proposals.len() == 0 {
        Seq::empty()
    } else if is_wanted(lookup, current, proposals.last()@.action_vector) {
        wanted_vectors(lookup, current, proposals.drop_last()).push(
            proposals.last()@.action_vector,
        )
    } else {
        wanted_vectors(lookup, current, proposals.drop_last())
    }
}

/// The vectors that a generation evaluates, in the order of the evaluations:
/// those of the proposals that are evaluated, then those of the population.
pub open spec fn plan(
    lookup: Map<Seq<i32>, i32>,
    current: Seq<i32>,
    population: Seq<Arm>,
    proposals: Seq<Arm>,
) -> Seq<Seq<i32>> {
    wanted_vectors(lookup, current, proposals) + crate::genetic::vectors_of(population)
}

/// How many of the vectors the deduplication index leads to the arm `index`.
pub open spec fn times_evaluated(
    lookup: Map<Seq<i32>, i32>,
    vectors: Seq<Seq<i32>>,
    index: int,
) -> nat
    decreases vectors.len(),
{
    if vectors.len() == 0 {
        0
    } else {
        times_evaluated(lookup, vectors.drop_last(), index) + if lookup.contains_key(
            vectors.last(),
        ) && lookup[vectors.last()] == index {
            1nat
        } else {
            0nat
        }
    }
}

/// Those of the vectors that the deduplication index does not hold, in their order.
pub open spec fn unknown_vectors(lookup: Map<Seq<i32>, i32>, vectors: Seq<Seq<i32>>) -> Seq<
    Seq<i32>,
>
    decreases vectors.len(),
{
    if vectors.len() == 0 {
        Seq::empty()
    } else if lookup.contains_key(vectors.last()) {
        unknown_vectors(lookup, vectors.drop_last())
    } else {
        unknown_vectors(lookup, vectors.drop_last()).push(vectors.last())
    }
}

/// What the evaluation of the vectors `done`, one after the other, makes of a
/// pool whose deduplication index was `lookup`: each arm that was there has
/// one pull more for each of the vectors that the index led to it; behind
/// them stand new arms, pulled once, one for each vector that the index did
/// not hold, in the order of the vectors.
pub open spec fn is_evaluated(
    before: Seq<Arm>,
    lookup: Map<Seq<i32>, i32>,
    after: Seq<Arm>,
    done: Seq<Seq<i32>>,
) -> bool {
    &&& before.len() <= after.len()
    &&& forall|i: int|
        0 <= i < before.len() ==> (#[trigger] after[i])@.num_pulls == before[i]@.num_pulls
            + times_evaluated(lookup, done, i)
    &&& forall|i: int| before.len() <= i < after.len() ==> (#[trigger] after[i])@.num_pulls == 1
    &&& crate::genetic::vectors_of(after.skip(before.len() as int)) == unknown_vectors(
        lookup,
        done,
    )
}

/// The vectors of the first proposals that are evaluated are the first of
/// the vectors of all proposals that are, and as many as are counted.
pub proof fn lemma_wanted_vectors(
    lookup: Map<Seq<i32>, i32>,
    current: Seq<i32>,
    proposals: Seq<Arm>,
    k: int,
)
    requires
        0 <= k <= proposals.len(),
    ensures
        wanted_vectors(lookup, current, proposals.take(k)).len() == wanted_count(
            lookup,
            current,
            proposals.take(k),
        ),
        wanted_vectors(lookup, current, proposals).len() == wanted_count(
            lookup,
            current,
            proposals,
        ),
        wanted_vectors(lookup, current, proposals).take(
            wanted_count(lookup, current, proposals.take(k)) as int,
        ) == wanted_vectors(lookup, current, proposals.take(k)),
    decreases proposals.len(),
{
    if proposals.len() == 0 {
        assert(proposals.take(k) =~= proposals);
    } else if k == proposals.len() {
        assert(proposals.take(k) =~= proposals);
        lemma_wanted_vectors(lookup, current, proposals.drop_last(), k - 1);
        assert(wanted_vectors(lookup, current, proposals).take(
            wanted_vectors(lookup, current, proposals).len() as int,
        ) =~= wanted_vectors(lookup, current, proposals));
    } else {
        lemma_wanted_vectors(lookup, current, proposals.drop_last(), k);
        lemma_counts_monotone(lookup, current, proposals.drop_last(), k);
        assert(proposals.drop_last().take(k) =~= proposals.take(k));
        let front = wanted_vectors(lookup, current, proposals.drop_last());
        let all = wanted_vectors(lookup, current, proposals);
        let n = wanted_count(lookup, current, proposals.take(k)) as int;
        assert(all.take(n) =~= front.take(n));
    }
}

/// One more evaluation, of a vector that the index led to an arm: the arm
/// has one pull more.
pub proof fn lemma_evaluated_known(
    before: Seq<Arm>,
    lookup: Map<Seq<i32>, i32>,
    middle: Seq<Arm>,
    after: Seq<Arm>,
    done: Seq<Seq<i32>>,
    v: Seq<i32>,
)
    requires
        is_evaluated(before, lookup, middle, done),
        lookup.contains_key(v),
        0 <= lookup[v] < before.len(),
        after.len() == middle.len(),
        forall|k: int|
            0 <= k < middle.len() ==> (#[trigger] after[k])@.action_vector
                == middle[k]@.action_vector && after[k]@.num_pulls == middle[k]@.num_pulls + if k
                == lookup[v] {
                1int
            } else {
                0int
            },
    ensures
        is_evaluated(before, lookup, after, done.push(v)),
{
    let next = done.push(v);
    assert(next.drop_last() =~= done);
    let n = before.len() as int;
    assert(crate::genetic::vectors_of(after.skip(n)) =~= crate::genetic::vectors_of(
        middle.skip(n),
    )) by {
        assert forall|k: int| 0 <= k < after.skip(n).len() implies crate::genetic::vectors_of(
            after.skip(n),
        )[k] == crate::genetic::vectors_of(middle.skip(n))[k] by {
            assert(after.skip(n)[k] == after[k + n]);
            assert(middle.skip(n)[k] == middle[k + n]);
        }
    }
}

/// One more evaluation, of a vector that the index did not hold: a new arm,
/// pulled once, stands behind the others.
pub proof fn lemma_evaluated_unknown(
    before: Seq<Arm>,
    lookup: Map<Seq<i32>, i32>,
    middle: Seq<Arm>,
    after: Seq<Arm>,
    done: Seq<Seq<i32>>,
    v: Seq<i32>,
)
    requires
        is_evaluated(before, lookup, middle, done),
        !lookup.contains_key(v),
        after.len() == middle.len() + 1,
        after.drop_last() == middle,
        after.last()@.action_vector == v,
        after.last()@.num_pulls == 1,
    ensures
        is_evaluated(before, lookup, after, done.push(v)),
{
    let next = done.push(v);
    assert(next.drop_last() =~= done);
    let n = before.len() as int;
    assert forall|i: int| 0 <= i < middle.len() implies after[i] == middle[i] by {
        assert(after.drop_last()[i] == after[i]);
    }
    assert(after.skip(n) =~= middle.skip(n).push(after.last()));
    assert(crate::genetic::vectors_of(after.skip(n)) =~= crate::genetic::vectors_of(
        middle.skip(n),
    ).push(v));
}

/// The evaluations that a generation calls for: one for each proposal that
/// is evaluated and one for each arm of the population.
pub open spec fn planned(
    lookup: Map<Seq<i32>, i32>,
    current: Seq<i32>,
    population: Seq<Arm>,
    proposals: Seq<Arm>,
) -> int {
    (wanted_count(lookup, current, proposals) + population.len()) as int
}

/// The count of evaluations after a generation that calls for `planned` of
/// them: the budget ends it.
pub open spec fn spent_after(used: int, budget: int, planned: int) -> int {
    if used + planned >= budget {
        budget
    } else {
        used + planned
    }
}

/// The budget that a run serves: the one asked for, and 1 where none was.
pub open spec fn served_budget(simulation_budget: usize) -> usize {
    if simulation_budget == 0 {
        1
    } else {
        simulation_budget
    }
}

/// Where a run stands between two generations: the pool, the rank index, the
/// deduplication index, and the evaluations counted so far.
pub struct Round {
    /// The pool.
    pub arms: Seq<Arm>,
    /// The rank index, in the order of iteration.
    pub ranks: Seq<(FloatKey, i32)>,
    /// The deduplication index.
    pub lookup: Map<Seq<i32>, i32>,
    /// The evaluations counted since the run began.
    pub used: int,
}

/// One generation leads from one round to the next: a generation is drawn up
/// from the pool and the rank index of the first, the count goes up by the
/// evaluations that it calls for, unless the budget ends it, and the vectors
/// of its plan are evaluated in order, as many as were counted. Each pull
/// that is added is an evaluation of the objective at the arm's vector; the
/// arms stay at their indices, and those that are made are indexed.
pub open spec fn is_generation_step<F: OptimizationFn, N: Numerics>(
    opti_function: &F,
    numerics: &N,
    config: GeneticView,
    budget: int,
    before: Round,
    after: Round,
) -> bool {
    &&& before.used < after.used <= budget
    &&& total_pulls(after.arms) == total_pulls(before.arms) + (after.used - before.used)
    &&& pulls_made(opti_function, numerics, before.arms, after.arms)
    &&& extends(after.arms, before.arms)
    &&& indexes_new_arms(before.arms, before.lookup, after.arms, after.lookup)
    &&& exists|current: Seq<i32>, population: Seq<Arm>, proposals: Seq<Arm>|
        {
            &&& #[trigger] is_generation(
                before.arms,
                before.ranks,
                config,
                current,
                population,
                proposals,
            )
            &&& after.used == spent_after(
                before.used,
                budget,
                planned(before.lookup, current, population, proposals),
            )
            &&& is_evaluated(
                before.arms,
                before.lookup,
                after.arms,
                plan(before.lookup, current, population, proposals).take(
                    after.used - before.used,
                ),
            )
        }
}

/// A run that spends a budget: it begins with no evaluation counted, each
/// round comes from the one before by one generation, and the last round
/// has the whole budget counted.
pub open spec fn is_run<F: OptimizationFn, N: Numerics>(
    opti_function: &F,
    numerics: &N,
    config: GeneticView,
    budget: int,
    rounds: Seq<Round>,
) -> bool {
    &&& rounds.len() >= 1
    &&& rounds.first().used == 0
    &&& rounds.last().used == budget
    &&& forall|k: int|
        0 <= k < rounds.len() - 1 ==> is_generation_step(
            opti_function,
            numerics,
            config,
            budget,
            #[trigger] rounds[k],
            rounds[k + 1],
        )
}

/// The deduplication index `now` has grown out of `before` while `done` were
/// gone through: it holds what `before` held, and what it holds more is the
/// vector of one of `done`, at an index behind the arms that were there.
pub open spec fn grown(
    before: Map<Seq<i32>, i32>,
    now: Map<Seq<i32>, i32>,
    arms: int,
    done: Seq<Arm>,
) -> bool {
    &&& forall|v: Seq<i32>| #[trigger]
        before.contains_key(v) ==> now.contains_key(v) && now[v] == before[v]
    &&& forall|v: Seq<i32>| #[trigger]
        now.contains_key(v) && !before.contains_key(v) ==> now[v] >= arms && exists|j: int|
            0 <= j < done.len() && (#[trigger] done[j])@.action_vector == v
}

/// Of the first proposals no more are evaluated, and no more are unknown,
/// than of all; and of all no more than there are.
pub proof fn lemma_counts_monotone(
    lookup: Map<Seq<i32>, i32>,
    current: Seq<i32>,
    proposals: Seq<Arm>,
    k: int,
)
    requires
        0 <= k <= proposals.len(),
    ensures
        wanted_count(lookup, current, proposals.take(k)) <= wanted_count(
            lookup,
            current,
            proposals,
        ) <= proposals.len(),
        unknown_count(lookup, proposals.take(k)) <= unknown_count(lookup, proposals)
            <= proposals.len(),
    decreases proposals.len(),
{
    if proposals.len() == 0 {
    } else if k == proposals.len() {
        assert(proposals.take(k) =~= proposals);
        lemma_counts_monotone(lookup, current, proposals.drop_last(), k - 1);
    } else {
        lemma_counts_monotone(lookup, current, proposals.drop_last(), k);
        assert(proposals.drop_last().take(k) =~= proposals.take(k));
    }
}

/// A generation holds one population of arms and no more proposals than that.
pub proof fn lemma_generation_size(
    arms: Seq<Arm>,
    ranks: Seq<(FloatKey, i32)>,
    lookup: Map<Seq<i32>, i32>,
    config: GeneticView,
    current: Seq<i32>,
    population: Seq<Arm>,
    proposals: Seq<Arm>,
)
    requires
        is_generation(arms, ranks, config, current, population, proposals),
    ensures
        current.len() == config.population_size,
        population.len() == config.population_size,
        proposals.len() <= config.population_size,
        wanted_count(lookup, current, proposals) <= config.population_size,
        unknown_count(lookup, proposals) <= config.population_size,
{
    let order = choose|order: Seq<i32>| #[trigger] is_drawn(arms, current, order, population);
    let crossed = choose|crossed: Seq<Arm>| #[trigger]
        is_proposed(population, crossed, proposals, config);
    vstd::seq_lib::to_multiset_len(order);
    vstd::seq_lib::to_multiset_len(current);
    let candidates = choose|candidates: Seq<Seq<i32>>|
        {
            &&& candidates.len() == crossed.len()
            &&& forall|i: int|
                0 <= i < crossed.len() ==> crate::genetic::is_mutation(
                    #[trigger] candidates[i],
                    crossed[i]@.action_vector,
                    config.lower_bound,
                    config.upper_bound,
                )
            &&& crate::genetic::vectors_of(proposals) == crate::genetic::distinct(candidates)
        };
    crate::genetic::lemma_distinct(candidates);
    lemma_counts_monotone(lookup, current, proposals, 0);
}

/// Whether the value is among the values.
pub fn contains_index(values: &Vec<i32>, value: i32) -> (r: bool)
    ensures
        r == values@.contains(value),
{
    let mut i: usize = 0;
    while i < values.len()
        invariant
            i <= values@.len(),
            forall|j: int| 0 <= j < i ==> values@[j] != value,
        decreases values@.len() - i,
    {
        if values[i] == value {
            return true;
        }
        i = i + 1;
    }
    false
}

} // verus!
