//! The optimisation engine: the arm pool, the deduplication index and the
//! rank index, which move together, and the loop that spends the budget.

use crate::arm::{
    is_first_pull, is_made, is_pull, is_pulled, is_pulled_times, lemma_pulled_once, Arm,
    Numerics, OptimizationFn,
};
use crate::float_key::FloatKey;
use crate::generation::{
    contains_index, elite_indexes, fits, grown, index_of, is_drawn, is_evaluated, is_generation,
    is_generation_step, is_proposed, is_run, lemma_evaluated_known, lemma_evaluated_unknown,
    lemma_wanted_vectors, plan, wanted_vectors,
    lemma_counts_monotone, lemma_generation_size, planned, served_budget, spent_after,
    unknown_count, wanted_count, Generation, Round,
};
use crate::genetic::{within_bounds, ConfigError, GeneticAlgorithm, GeneticView};
use crate::lookup_table::LookupTable;
use crate::pool::{
    arms_valid, copy_vector, created, extends, indexes_new_arms, lemma_indexes_new_arms_chain,
    lemma_pulls_made_chain, lemma_rank_entry, lemma_ranked, pulls_made,
    lemma_total_pulls_bounds, lemma_total_pulls_push, lemma_total_pulls_update, lookup_matches,
    max_pulls, rank_entries, ranks_match, resampled, total_pulls,
};
use crate::selection::{
    front, front_len, is_final_choice, is_front_len, is_scored, is_selection, lemma_best_scored,
    lemma_front_exists, select_best, selected,
};
use crate::sorted_multi_map::{is_sorted, SortedMultiMap};
use rand::distributions::Bernoulli;
use rand::rngs::StdRng;
use vstd::prelude::*;

verus! {

/// The optimisation engine.
///
/// It owns the pool of arms, the deduplication index and the rank index, and
/// changes them only together: see `wf`.
pub struct Gmab<F: OptimizationFn, N: Numerics> {
    sample_average_tree: SortedMultiMap,
    arm_memory: Vec<Arm>,
    lookup_table: LookupTable,
    genetic_algorithm: GeneticAlgorithm,
    opti_function: F,
    numerics: N,
    rng: StdRng,
}

impl<F: OptimizationFn, N: Numerics> Gmab<F, N> {
    /// The pool: every arm made so far, each at its index.
    pub closed spec fn arms(&self) -> Seq<Arm> {
        self.arm_memory@
    }

    /// The rank index, in the order of iteration.
    pub closed spec fn ranks(&self) -> Seq<(FloatKey, i32)> {
        self.sample_average_tree@
    }

    /// The deduplication index.
    pub closed spec fn lookup(&self) -> Map<Seq<i32>, i32> {
        self.lookup_table@
    }

    /// The configuration of the genetic proposer.
    pub closed spec fn config(&self) -> GeneticView {
        self.genetic_algorithm@
    }

    /// The objective that the engine evaluates.
    pub closed spec fn objective(&self) -> F {
        self.opti_function
    }

    /// The arithmetic that the engine leaves to its caller.
    pub closed spec fn arithmetic(&self) -> N {
        self.numerics
    }

    /// Where the run stands with `used` evaluations counted.
    pub open spec fn round(&self, used: int) -> Round {
        Round { arms: self.arms(), ranks: self.ranks(), lookup: self.lookup(), used }
    }

    /// The parts are each in order.
    pub closed spec fn parts_wf(&self) -> bool {
        &&& self.sample_average_tree.wf()
        &&& self.lookup_table.wf()
        &&& self.genetic_algorithm.wf()
    }

    /// The three views of the population agree: the rank index holds one entry
    /// for each arm, under its mean; the deduplication index holds each vector
    /// of the pool and leads to an arm that has it; the pool holds at least
    /// one population of arms, each pulled and between the bounds.
    pub open spec fn wf(&self) -> bool {
        &&& self.parts_wf()
        &&& is_sorted(self.ranks())
        &&& 1 <= self.config().population_size <= self.arms().len() <= i32::MAX
        &&& self.config().lower_bound.len() == self.config().dimension
        &&& arms_valid(self.arms(), self.config())
        &&& ranks_match(self.arms(), self.ranks())
        &&& lookup_matches(self.arms(), self.lookup())
    }

    /// The evaluations spent so far.
    pub open spec fn evaluations(&self) -> int {
        total_pulls(self.arms())
    }

    /// Makes the proposer, draws the first population and pulls each of its
    /// arms once. Fails on a configuration that the proposer refuses, and on
    /// no other.
    ///
    /// On success the pool and the rank index hold `population_size` arms, each
    /// pulled once, and the deduplication index holds their vectors: as many
    /// where no two arms are equal, and for equal arms the index of the last.
    /// The rank index is what the entries of the arms, inserted in the order
    /// of the pool, build; so arms of one mean stand in the order of the pool.
    pub fn new(
        opti_function: F,
        numerics: N,
        rng: StdRng,
        population_size: usize,
        mutation_rate: Bernoulli,
        crossover_rate: Bernoulli,
        dimension: usize,
        lower_bound: Vec<i32>,
        upper_bound: Vec<i32>,
    ) -> (r: Result<Gmab<F, N>, ConfigError>)
        ensures
            match r {
                Ok(g) => {
                    &&& crate::genetic::config_error(
                        population_size,
                        dimension,
                        lower_bound@,
                        upper_bound@,
                    ) is None
                    &&& g.wf()
                    &&& g.objective() == opti_function
                    &&& g.arithmetic() == numerics
                    &&& g.config() == (GeneticView {
                        population_size: population_size as nat,
                        dimension: dimension as nat,
                        lower_bound: lower_bound@,
                        upper_bound: upper_bound@,
                        mutation_rate,
                        crossover_rate,
                    })
                    &&& g.arms().len() == population_size
                    &&& g.ranks().len() == population_size
                    &&& forall|i: int|
                        0 <= i < g.arms().len() ==> (#[trigger] g.arms()[i])@.num_pulls == 1
                    &&& g.evaluations() == population_size
                    &&& forall|i: int|
                        0 <= i < g.arms().len() ==> is_first_pull(
                            &opti_function,
                            &numerics,
                            (#[trigger] g.arms()[i])@,
                        )
                    &&& forall|i: int|
                        0 <= i < g.arms().len() ==> is_made(
                            &opti_function,
                            &numerics,
                            (#[trigger] g.arms()[i])@,
                        )
                    &&& g.ranks() == crate::sorted_multi_map::built(rank_entries(g.arms()))
                    &&& forall|i: int|
                        0 <= i < g.arms().len() ==> g.lookup()[(#[trigger] g.arms()[i])@.action_vector]
                            >= i
                    &&& crate::genetic::vectors_of(g.arms()).no_duplicates() ==> g.lookup().dom().len()
                        == population_size
                },
                Err(e) => crate::genetic::config_error(
                    population_size,
                    dimension,
                    lower_bound@,
                    upper_bound@,
                ) == Some(e),
            },
    {
        let genetic_algorithm: GeneticAlgorithm = match GeneticAlgorithm::new(
            population_size,
            mutation_rate,
            crossover_rate,
            dimension,
            lower_bound,
            upper_bound,
        ) {
            Ok(genetic_algorithm) => genetic_algorithm,
            Err(e) => {
                return Err(e);
            },
        };
        let mut rng: StdRng = rng;
        let mut arm_memory: Vec<Arm> = Vec::new();
        let mut lookup_table: LookupTable = LookupTable::new();
        let mut sample_average_tree: SortedMultiMap = SortedMultiMap::new();
        let initial_population: Vec<Arm> = genetic_algorithm.generate_new_population(&mut rng);
        let mut index: usize = 0;
        proof {
            assert(rank_entries(arm_memory@) =~= Seq::<(FloatKey, i32)>::empty());
        }
        while index < population_size
            invariant
                genetic_algorithm.wf(),
                genetic_algorithm@.population_size == population_size,
                population_size <= i32::MAX,
                initial_population@.len() == population_size,
                crate::genetic::all_fresh(initial_population@),
                crate::genetic::all_within_bounds(
                    initial_population@,
                    genetic_algorithm@.lower_bound,
                    genetic_algorithm@.upper_bound,
                ),
                index <= population_size,
                arm_memory@.len() == index,
                sample_average_tree.wf(),
                is_sorted(sample_average_tree@),
                lookup_table.wf(),
                arms_valid(arm_memory@, genetic_algorithm@),
                ranks_match(arm_memory@, sample_average_tree@),
                lookup_matches(arm_memory@, lookup_table@),
                total_pulls(arm_memory@) == index,
                forall|i: int|
                    0 <= i < index ==> is_first_pull(
                        &opti_function,
                        &numerics,
                        (#[trigger] arm_memory@[i])@,
                    ),
                forall|i: int|
                    0 <= i < index ==> is_made(
                        &opti_function,
                        &numerics,
                        (#[trigger] arm_memory@[i])@,
                    ),
                sample_average_tree@ == crate::sorted_multi_map::built(rank_entries(arm_memory@)),
                forall|i: int| 0 <= i < index ==> (#[trigger] arm_memory@[i])@.num_pulls == 1,
                forall|i: int|
                    0 <= i < index ==> lookup_table@[(#[trigger] arm_memory@[i])@.action_vector]
                        >= i,
                crate::genetic::vectors_of(arm_memory@).no_duplicates() ==> lookup_table@.dom().len()
                    == index,
            decreases population_size - index,
        {
            let mut individual: Arm = initial_population[index].clone();
            let ghost fresh = individual@;
            let sample: FloatKey = individual.pull(&opti_function, &numerics);
            proof {
                assert(is_pull(&opti_function, &numerics, fresh, sample, individual@));
                assert(is_pulled(&opti_function, &numerics, fresh, individual@));
            }
            let ghost before = arm_memory@;
            let ghost table = lookup_table@;
            let ghost ranks = sample_average_tree@;
            let vector: Vec<i32> = copy_vector(individual.get_action_vector());
            let mean: FloatKey = individual.get_mean_reward();
            proof {
                lemma_ranked(before, ranks);
                lemma_total_pulls_push(before, individual);
                crate::sorted_multi_map::lemma_inserted(ranks, mean, index as i32);
                vstd::seq_lib::to_multiset_build(rank_entries(before), (mean, index as i32));
                assert(rank_entries(before.push(individual)) =~= rank_entries(before).push(
                    (mean, index as i32),
                ));
            }
            arm_memory.push(individual);
            lookup_table.insert(vector, index as i32);
            sample_average_tree.insert(mean, index as i32);
            proof {
                let after = arm_memory@;
                let v = after[index as int]@.action_vector;
                assert(rank_entries(after).drop_last() =~= rank_entries(before));
                assert forall|i: int| 0 <= i < after.len() implies is_first_pull(
                    &opti_function,
                    &numerics,
                    (#[trigger] after[i])@,
                ) by {
                    if i < index {
                        assert(after[i] == before[i]);
                    } else {
                        assert(is_pulled(&opti_function, &numerics, fresh, after[i]@));
                    }
                }
                assert forall|i: int| 0 <= i < after.len() implies is_made(
                    &opti_function,
                    &numerics,
                    (#[trigger] after[i])@,
                ) by {
                    if i < index {
                        assert(after[i] == before[i]);
                    } else {
                        lemma_pulled_once(&opti_function, &numerics, fresh, after[i]@);
                    }
                }
                if crate::genetic::vectors_of(after).no_duplicates() {
                    assert forall|i: int, j: int|
                        0 <= i < before.len() && 0 <= j < before.len() && i
                            != j implies crate::genetic::vectors_of(before)[i]
                        != crate::genetic::vectors_of(before)[j] by {
                        assert(crate::genetic::vectors_of(after)[i] == crate::genetic::vectors_of(
                            before,
                        )[i]);
                        assert(crate::genetic::vectors_of(after)[j] == crate::genetic::vectors_of(
                            before,
                        )[j]);
                    }
                    if table.contains_key(v) {
                        let k = table[v] as int;
                        assert(crate::genetic::vectors_of(after)[k] == v);
                        assert(crate::genetic::vectors_of(after)[index as int] == v);
                    }
                }
            }
            index = index + 1;
        }
        proof {
            lemma_ranked(arm_memory@, sample_average_tree@);
        }
        Ok(
            Gmab {
                sample_average_tree,
                arm_memory,
                lookup_table,
                genetic_algorithm,
                opti_function,
                numerics,
                rng,
            },
        )
    }

    /// The pool of arms, each at its index.
    pub fn arm_memory(&self) -> (arms: &Vec<Arm>)
        ensures
            arms@ == self.arms(),
    {
        &self.arm_memory
    }

    /// The rank index.
    pub fn sample_average_tree(&self) -> (tree: &SortedMultiMap)
        ensures
            tree@ == self.ranks(),
            self.wf() ==> tree.wf(),
    {
        &self.sample_average_tree
    }

    /// The deduplication index.
    pub fn lookup_table(&self) -> (table: &LookupTable)
        ensures
            table@ == self.lookup(),
            self.wf() ==> table.wf(),
    {
        &self.lookup_table
    }

    /// The genetic proposer.
    pub fn genetic_algorithm(&self) -> (genetic_algorithm: &GeneticAlgorithm)
        ensures
            genetic_algorithm@ == self.config(),
            self.wf() ==> genetic_algorithm.wf(),
    {
        &self.genetic_algorithm
    }

    /// The objective: the one that the engine was made with, which it
    /// evaluates and never changes.
    pub fn opti_function(&self) -> (opti_function: &F)
        ensures
            *opti_function == self.objective(),
    {
        &self.opti_function
    }

    /// The index of the arm that the deduplication index holds for this
    /// arm's vector, or -1 where it holds none.
    pub fn get_arm_index(&self, individual: &Arm) -> (index: i32)
        requires
            self.wf(),
        ensures
            index == index_of(self.lookup(), individual@.action_vector),
            -1 <= index < self.arms().len(),
            index == -1 <==> !self.lookup().contains_key(individual@.action_vector),
    {
        match self.lookup_table.get(individual.get_action_vector()) {
            Some(index) => index,
            None => -1,
        }
    }

    /// The evaluations spent so far: the pulls of all arms together.
    pub fn evaluations_spent(&self) -> (n: i64)
        requires
            self.wf(),
        ensures
            n == self.evaluations(),
    {
        let mut n: i64 = 0;
        let mut i: usize = 0;
        while i < self.arm_memory.len()
            invariant
                i <= self.arm_memory@.len() <= i32::MAX,
                n == total_pulls(self.arm_memory@.take(i as int)),
                0 <= n <= i * i32::MAX,
            decreases self.arm_memory@.len() - i,
        {
            proof {
                assert(self.arm_memory@.take(i + 1).drop_last() =~= self.arm_memory@.take(i as int));
            }
            n = n + self.arm_memory[i].get_num_pulls() as i64;
            i = i + 1;
        }
        proof {
            assert(self.arm_memory@.take(self.arm_memory@.len() as int) =~= self.arm_memory@);
        }
        n
    }

    /// The greatest number of pulls of any arm.
    pub fn max_number_pulls(&self) -> (max: i32)
        requires
            self.wf(),
        ensures
            max == max_pulls(self.arms()),
    {
        let mut max: i32 = 0;
        let mut i: usize = 0;
        while i < self.arm_memory.len()
            invariant
                i <= self.arm_memory@.len(),
                max == max_pulls(self.arm_memory@.take(i as int)),
            decreases self.arm_memory@.len() - i,
        {
            proof {
                assert(self.arm_memory@.take(i + 1).drop_last() =~= self.arm_memory@.take(i as int));
            }
            let pulls: i32 = self.arm_memory[i].get_num_pulls();
            if pulls > max {
                max = pulls;
            }
            i = i + 1;
        }
        proof {
            assert(self.arm_memory@.take(self.arm_memory@.len() as int) =~= self.arm_memory@);
        }
        max
    }

    /// Spends one evaluation on an arm. With an index of the pool the arm
    /// there is pulled once more and its rank entry moved to its new mean.
    /// With a negative index the individual, whose vector the pool does not
    /// hold yet, is pulled once and joins the pool, the deduplication index
    /// and the rank index.
    pub fn sample_and_update(&mut self, arm_index: i32, individual: Arm)
        requires
            old(self).wf(),
            old(self).evaluations() < i32::MAX,
            arm_index < old(self).arms().len(),
            arm_index < 0 ==> {
                &&& !old(self).lookup().contains_key(individual@.action_vector)
                &&& within_bounds(
                    individual@.action_vector,
                    old(self).config().lower_bound,
                    old(self).config().upper_bound,
                )
                &&& individual@.num_pulls == 0
            },
        ensures
            final(self).wf(),
            final(self).config() == old(self).config(),
            final(self).objective() == old(self).objective(),
            final(self).arithmetic() == old(self).arithmetic(),
            final(self).evaluations() == old(self).evaluations() + 1,
            extends(final(self).arms(), old(self).arms()),
            indexes_new_arms(
                old(self).arms(),
                old(self).lookup(),
                final(self).arms(),
                final(self).lookup(),
            ),
            pulls_made(
                &old(self).objective(),
                &old(self).arithmetic(),
                old(self).arms(),
                final(self).arms(),
            ),
            arm_index >= 0 ==> {
                &&& resampled(
                    old(self).arms(),
                    old(self).ranks(),
                    final(self).arms(),
                    final(self).ranks(),
                    arm_index as int,
                )
                &&& final(self).lookup() == old(self).lookup()
                &&& is_pulled(
                    &old(self).objective(),
                    &old(self).arithmetic(),
                    old(self).arms()[arm_index as int]@,
                    final(self).arms()[arm_index as int]@,
                )
            },
            arm_index < 0 ==> {
                &&& is_pulled(
                    &old(self).objective(),
                    &old(self).arithmetic(),
                    individual@,
                    final(self).arms().last()@,
                )
                &&& created(
                    old(self).arms(),
                    old(self).ranks(),
                    final(self).arms(),
                    final(self).ranks(),
                    individual@.action_vector,
                )
                &&& final(self).lookup() == old(self).lookup().insert(
                    individual@.action_vector,
                    old(self).arms().len() as i32,
                )
            },
    {
        let ghost before = self.arm_memory@;
        let ghost ranks = self.sample_average_tree@;
        proof {
            lemma_total_pulls_bounds(before);
            lemma_ranked(before, ranks);
        }
        if arm_index >= 0 {
            let i: usize = arm_index as usize;
            let old_mean: FloatKey = self.arm_memory[i].get_mean_reward();
            proof {
                crate::sorted_multi_map::lemma_deleted(ranks, old_mean, arm_index);
            }
            self.sample_average_tree.delete(&old_mean, &arm_index);
            let ghost removed = self.sample_average_tree@;
            let mut arm: Arm = self.arm_memory[i].clone();
            arm.pull(&self.opti_function, &self.numerics);
            let new_mean: FloatKey = arm.get_mean_reward();
            proof {
                lemma_total_pulls_update(before, i as int, arm);
                crate::sorted_multi_map::lemma_inserted(removed, new_mean, arm_index);
                vstd::seq_lib::to_multiset_update(rank_entries(before), i as int, (new_mean, arm_index));
                assert(rank_entries(before.update(i as int, arm)) =~= rank_entries(before).update(
                    i as int,
                    (new_mean, arm_index),
                ));
                assert(ranks.to_multiset().remove((old_mean, arm_index)).insert((new_mean, arm_index))
                    =~= ranks.to_multiset().insert((new_mean, arm_index)).remove(
                    (old_mean, arm_index),
                )) by {
                    broadcast use vstd::seq_lib::group_to_multiset_ensures;
                }
            }
            self.arm_memory.set(i, arm);
            self.sample_average_tree.insert(new_mean, arm_index);
            proof {
                lemma_pulled_once(
                    &self.opti_function,
                    &self.numerics,
                    before[i as int]@,
                    self.arm_memory@[i as int]@,
                );
                assert forall|k: int| 0 <= k < before.len() implies (
                #[trigger] self.arm_memory@[k])@.num_pulls >= before[k]@.num_pulls
                    && is_pulled_times(
                    &self.opti_function,
                    &self.numerics,
                    before[k]@,
                    self.arm_memory@[k]@,
                    (self.arm_memory@[k]@.num_pulls - before[k]@.num_pulls) as nat,
                ) by {
                    if k != i {
                        assert(self.arm_memory@[k] == before[k]);
                    }
                }
            }
        } else {
            let mut arm: Arm = individual;
            arm.pull(&self.opti_function, &self.numerics);
            let index: i32 = self.arm_memory.len() as i32;
            let vector: Vec<i32> = copy_vector(arm.get_action_vector());
            let mean: FloatKey = arm.get_mean_reward();
            proof {
                crate::sorted_multi_map::lemma_inserted(ranks, mean, index);
                vstd::seq_lib::to_multiset_build(rank_entries(before), (mean, index));
                assert(rank_entries(before.push(arm)) =~= rank_entries(before).push((mean, index)));
            }
            self.arm_memory.push(arm);
            self.lookup_table.insert(vector, index);
            self.sample_average_tree.insert(mean, index);
            proof {
                assert(self.arm_memory@.drop_last() =~= before);
                lemma_pulled_once(
                    &self.opti_function,
                    &self.numerics,
                    individual@,
                    self.arm_memory@.last()@,
                );
                assert forall|k: int| 0 <= k < before.len() implies (
                #[trigger] self.arm_memory@[k])@.num_pulls >= before[k]@.num_pulls
                    && is_pulled_times(
                    &self.opti_function,
                    &self.numerics,
                    before[k]@,
                    self.arm_memory@[k]@,
                    (self.arm_memory@[k]@.num_pulls - before[k]@.num_pulls) as nat,
                ) by {
                    assert(self.arm_memory@[k] == before[k]);
                }
            }
        }
    }

    /// The non-dominated front: the entries of the rank index from the least
    /// mean up to the first arm that has the most pulls, that one included.
    pub fn non_dominated_front(&self) -> (entries: Vec<(FloatKey, i32)>)
        requires
            self.wf(),
        ensures
            entries@ == front(self.arms(), self.ranks()),
            1 <= entries@.len() <= self.arms().len(),
    {
        let mut entries: Vec<(FloatKey, i32)> = self.sample_average_tree.iter();
        let max: i32 = self.max_number_pulls();
        let ghost arms = self.arm_memory@;
        let ghost ranks = self.sample_average_tree@;
        proof {
            lemma_front_exists(arms, ranks);
            lemma_ranked(arms, ranks);
        }
        let ghost n = front_len(arms, ranks);
        let mut j: usize = 0;
        loop
            invariant_except_break
                entries@ == ranks,
                arms == self.arm_memory@,
                ranks_match(arms, ranks),
                max == max_pulls(arms),
                is_front_len(arms, ranks, n),
                n <= ranks.len() == arms.len() <= i32::MAX,
                j < n,
                forall|k: int|
                    0 <= k < j ==> arms[(#[trigger] ranks[k]).1 as int]@.num_pulls != max_pulls(
                        arms,
                    ),
            ensures
                j + 1 == n,
                entries@ == ranks,
            decreases n - j,
        {
            proof {
                lemma_rank_entry(arms, ranks, j as int);
            }
            let index: usize = entries[j].1 as usize;
            if self.arm_memory[index].get_num_pulls() == max {
                break ;
            }
            j = j + 1;
        }
        entries.truncate(j + 1);
        entries
    }

    /// The final choice: the index of the arm to report after
    /// `simulations_used` evaluations.
    ///
    /// The candidates are the non-dominated front. Where their means are all
    /// equal the arm at the end of the front is chosen. Else each is given
    /// its score by `confidence_bound`, and the first with the least score
    /// is chosen; arm 0 where no score is below the largest finite number.
    pub fn find_best_ucb(&self, simulations_used: usize) -> (best: i32)
        requires
            self.wf(),
        ensures
            0 <= best < self.arms().len(),
            is_selection(self.arms(), self.ranks(), best),
            is_final_choice(
                &self.arithmetic(),
                self.arms(),
                self.ranks(),
                simulations_used,
                best,
            ),
    {
        let candidates: Vec<(FloatKey, i32)> = self.non_dominated_front();
        let ghost arms = self.arm_memory@;
        let ghost ranks = self.sample_average_tree@;
        let count: usize = candidates.len();
        let min_mean: FloatKey = candidates[0].0;
        let max_mean: FloatKey = candidates[count - 1].0;
        proof {
            lemma_front_exists(arms, ranks);
            lemma_ranked(arms, ranks);
            lemma_rank_entry(arms, ranks, count - 1);
        }
        if min_mean == max_mean {
            proof {
                let none = Seq::new(count as nat, |i: int| None::<FloatKey>);
                assert(selected(arms, ranks, none) == candidates@[count - 1].1);
            }
            return candidates[count - 1].1;
        }
        proof {
            FloatKey::lemma_view_injective(min_mean, max_mean);
        }
        let mut scores: Vec<Option<FloatKey>> = Vec::new();
        let mut k: usize = 0;
        while k < count
            invariant
                self.wf(),
                arms == self.arm_memory@,
                ranks == self.sample_average_tree@,
                1 <= count <= ranks.len() == arms.len(),
                candidates@ == ranks.take(count as int),
                min_mean == ranks[0].0,
                max_mean == ranks[count - 1].0,
                min_mean@ < max_mean@,
                k <= count,
                scores@.len() == k,
                forall|j: int|
                    0 <= j < k ==> call_ensures(
                        N::confidence_bound,
                        (
                            &self.numerics,
                            arms[ranks[j].1 as int]@.mean_reward,
                            min_mean,
                            max_mean,
                            simulations_used,
                            arms[ranks[j].1 as int]@.num_pulls as i32,
                        ),
                        #[trigger] scores@[j],
                    ),
            decreases count - k,
        {
            proof {
                lemma_rank_entry(arms, ranks, k as int);
            }
            let arm: &Arm = &self.arm_memory[candidates[k].1 as usize];
            let score: Option<FloatKey> = self.numerics.confidence_bound(
                arm.get_mean_reward(),
                min_mean,
                max_mean,
                simulations_used,
                arm.get_num_pulls(),
            );
            scores.push(score);
            k = k + 1;
        }
        let best: i32 = select_best(&candidates, &scores);
        proof {
            lemma_best_scored(candidates@, scores@);
            if best != 0 {
                let w = choose|w: int|
                    0 <= w < candidates@.len() && best == (#[trigger] candidates@[w]).1;
                lemma_rank_entry(arms, ranks, w);
            }
            assert(selected(arms, ranks, scores@) == best);
            assert(is_scored(&self.numerics, arms, candidates@, simulations_used, scores@));
        }
        best
    }

    /// Draws up one generation: the indices of the best arms in rank order,
    /// copies of these arms in shuffled order, and what crossover and mutation
    /// make of the copies. The pool and the two indexes stay as they are.
    pub fn propose(&mut self) -> (generation: Generation)
        requires
            old(self).wf(),
        ensures
            final(self).wf(),
            final(self).arms() == old(self).arms(),
            final(self).ranks() == old(self).ranks(),
            final(self).lookup() == old(self).lookup(),
            final(self).config() == old(self).config(),
            final(self).objective() == old(self).objective(),
            final(self).arithmetic() == old(self).arithmetic(),
            is_generation(
                old(self).arms(),
                old(self).ranks(),
                old(self).config(),
                generation.current_indexes@,
                generation.population@,
                generation.proposals@,
            ),
            fits(
                final(self).arms(),
                final(self).lookup(),
                final(self).config(),
                generation.current_indexes@,
                generation.population@,
                generation.proposals@,
            ),
    {
        let ghost start = self.arm_memory@;
        let ghost ranks = self.sample_average_tree@;
        let ghost config = self.genetic_algorithm@;
        let population_size: usize = self.genetic_algorithm.population_size();
        let elite: Vec<(FloatKey, i32)> = self.sample_average_tree.first(population_size);
        proof {
            lemma_ranked(start, ranks);
        }
        let mut current_indexes: Vec<i32> = Vec::new();
        let mut e: usize = 0;
        while e < elite.len()
            invariant
                elite@ == ranks.take(population_size as int),
                population_size <= ranks.len(),
                ranks_match(start, ranks),
                start.len() <= i32::MAX,
                e <= elite@.len(),
                current_indexes@ == elite_indexes(ranks, e as int),
                forall|k: int| 0 <= k < e ==> 0 <= #[trigger] current_indexes@[k] < start.len(),
            decreases elite@.len() - e,
        {
            proof {
                lemma_rank_entry(start, ranks, e as int);
            }
            current_indexes.push(elite[e].1);
            e = e + 1;
        }
        let mut shuffled: Vec<i32> = current_indexes.clone();
        crate::random::shuffle(&mut self.rng, &mut shuffled);
        proof {
            broadcast use vstd::seq_lib::group_to_multiset_ensures;

            assert forall|k: int| 0 <= k < shuffled@.len() implies 0 <= #[trigger] shuffled@[k]
                < start.len() by {
                let x = shuffled@[k];
                assert(current_indexes@.to_multiset().count(x) > 0);
            }
        }
        let mut population: Vec<Arm> = Vec::new();
        let mut p: usize = 0;
        while p < shuffled.len()
            invariant
                self.arm_memory@ == start,
                p <= shuffled@.len(),
                population@.len() == p,
                forall|k: int| 0 <= k < shuffled@.len() ==> 0 <= #[trigger] shuffled@[k] < start.len(),
                forall|k: int|
                    0 <= k < p ==> (#[trigger] population@[k])@ == start[shuffled@[k] as int]@,
            decreases shuffled@.len() - p,
        {
            let arm: Arm = self.arm_memory[shuffled[p] as usize].clone();
            population.push(arm);
            p = p + 1;
        }
        let crossover_pop: Vec<Arm> = self.genetic_algorithm.crossover(&mut self.rng, &population);
        proof {
            crate::genetic::lemma_crossover_within_bounds(
                population@,
                crossover_pop@,
                config.lower_bound,
                config.upper_bound,
            );
        }
        let proposals: Vec<Arm> = self.genetic_algorithm.mutate(
            &mut self.rng,
            &self.numerics,
            &crossover_pop,
        );
        proof {
            crate::genetic::lemma_mutated_within_bounds(
                crossover_pop@,
                proposals@,
                config.lower_bound,
                config.upper_bound,
            );
            assert(is_drawn(start, current_indexes@, shuffled@, population@));
            assert(is_proposed(population@, crossover_pop@, proposals@, config));
        }
        Generation { current_indexes, population, proposals }
    }

    /// Evaluates one generation. Each proposal in turn is looked up in the
    /// deduplication index: one that is among the best arms already is passed
    /// over; another is evaluated, as the arm that has its vector or, where
    /// there is none, as a new arm. Then each arm of the population is
    /// evaluated once more. Each evaluation counts one, and the generation
    /// ends when the count reaches `simulation_budget`.
    ///
    /// Returns the count, which was `simulations_used` before. Every pull
    /// that is added is one evaluation of the objective at the arm's vector,
    /// and every arm that is made has a vector that no other arm has.
    pub fn evaluate_generation(
        &mut self,
        generation: &Generation,
        simulations_used: usize,
        simulation_budget: usize,
    ) -> (used: usize)
        requires
            old(self).wf(),
            simulations_used < simulation_budget,
            old(self).evaluations() + (simulation_budget - simulations_used) <= i32::MAX,
            fits(
                old(self).arms(),
                old(self).lookup(),
                old(self).config(),
                generation.current_indexes@,
                generation.population@,
                generation.proposals@,
            ),
        ensures
            final(self).wf(),
            final(self).config() == old(self).config(),
            final(self).objective() == old(self).objective(),
            final(self).arithmetic() == old(self).arithmetic(),
            final(self).evaluations() == old(self).evaluations() + (used - simulations_used),
            extends(final(self).arms(), old(self).arms()),
            indexes_new_arms(
                old(self).arms(),
                old(self).lookup(),
                final(self).arms(),
                final(self).lookup(),
            ),
            pulls_made(
                &old(self).objective(),
                &old(self).arithmetic(),
                old(self).arms(),
                final(self).arms(),
            ),
            used == spent_after(
                simulations_used as int,
                simulation_budget as int,
                planned(
                    old(self).lookup(),
                    generation.current_indexes@,
                    generation.population@,
                    generation.proposals@,
                ),
            ),
            final(self).arms().len() <= old(self).arms().len() + unknown_count(
                old(self).lookup(),
                generation.proposals@,
            ),
            used < simulation_budget ==> final(self).arms().len() == old(self).arms().len()
                + unknown_count(old(self).lookup(), generation.proposals@),
            is_evaluated(
                old(self).arms(),
                old(self).lookup(),
                final(self).arms(),
                plan(
                    old(self).lookup(),
                    generation.current_indexes@,
                    generation.population@,
                    generation.proposals@,
                ).take(used - simulations_used),
            ),
    {
        let ghost start = self.arms();
        let ghost table = self.lookup();
        let ghost config = self.config();
        let ghost current = generation.current_indexes@;
        let ghost proposals = generation.proposals@;
        let ghost population = generation.population@;
        let ghost whole = plan(table, current, population, proposals);
        let mut used: usize = simulations_used;
        proof {
            assert(start.skip(start.len() as int) =~= Seq::<Arm>::empty());
            assert(crate::genetic::vectors_of(start.skip(start.len() as int)) =~= Seq::<
                Seq<i32>,
            >::empty());
            assert(proposals.take(0) =~= Seq::<Arm>::empty());
        }
        let mut m: usize = 0;
        while m < generation.proposals.len()
            invariant
                self.wf(),
                self.config() == config,
                self.objective() == old(self).objective(),
                self.arithmetic() == old(self).arithmetic(),
                config == old(self).config(),
                start == old(self).arms(),
                table == old(self).lookup(),
                current == generation.current_indexes@,
                proposals == generation.proposals@,
                population == generation.population@,
                fits(start, table, config, current, population, proposals),
                extends(self.arms(), start),
                indexes_new_arms(start, old(self).lookup(), self.arms(), self.lookup()),
                pulls_made(&self.objective(), &self.arithmetic(), start, self.arms()),
                grown(table, self.lookup(), start.len() as int, proposals.take(m as int)),
                whole == plan(table, current, population, proposals),
                lookup_matches(start, table),
                is_evaluated(
                    start,
                    table,
                    self.arms(),
                    wanted_vectors(table, current, proposals.take(m as int)),
                ),
                simulations_used <= used < simulation_budget,
                used == simulations_used + wanted_count(table, current, proposals.take(m as int)),
                self.arms().len() == start.len() + unknown_count(table, proposals.take(m as int)),
                self.evaluations() == total_pulls(start) + (used - simulations_used),
                total_pulls(start) + (simulation_budget - simulations_used) <= i32::MAX,
                m <= proposals.len(),
            decreases proposals.len() - m,
        {
            let ghost now = self.lookup();
            let ghost v = proposals[m as int]@.action_vector;
            let arm_index: i32 = self.get_arm_index(&generation.proposals[m]);
            proof {
                assert(proposals.take(m + 1).drop_last() =~= proposals.take(m as int));
                lemma_counts_monotone(table, current, proposals, m + 1);
                if now.contains_key(v) && !table.contains_key(v) {
                    // A vector that joined in this generation is an earlier proposal.
                    let j = choose|j: int|
                        0 <= j < m && (#[trigger] proposals.take(m as int)[j])@.action_vector == v;
                    assert(crate::genetic::vectors_of(proposals)[j] == v);
                    assert(crate::genetic::vectors_of(proposals)[m as int] == v);
                }
            }
            if !contains_index(&generation.current_indexes, arm_index) {
                let individual: Arm = generation.proposals[m].clone();
                let ghost previous = self.arms();
                self.sample_and_update(arm_index, individual);
                proof {
                    let done = wanted_vectors(table, current, proposals.take(m as int));
                    if arm_index >= 0 {
                        lemma_evaluated_known(start, table, previous, self.arms(), done, v);
                    } else {
                        lemma_evaluated_unknown(start, table, previous, self.arms(), done, v);
                    }
                    assert(wanted_vectors(table, current, proposals.take(m + 1)) == done.push(v));
                    lemma_wanted_vectors(table, current, proposals, m + 1);
                    assert(whole.take(done.len() as int + 1) =~= wanted_vectors(
                        table,
                        current,
                        proposals,
                    ).take(done.len() as int + 1));
                    lemma_indexes_new_arms_chain(
                        start,
                        table,
                        previous,
                        now,
                        self.arms(),
                        self.lookup(),
                    );
                    lemma_pulls_made_chain(
                        &self.objective(),
                        &self.arithmetic(),
                        start,
                        previous,
                        self.arms(),
                    );
                }
                used = used + 1;
                if used >= simulation_budget {
                    return used;
                }
            }
            m = m + 1;
        }
        proof {
            assert(proposals.take(proposals.len() as int) =~= proposals);
            lemma_wanted_vectors(table, current, proposals, proposals.len() as int);
            assert(whole.take(wanted_count(table, current, proposals) as int)
                =~= wanted_vectors(table, current, proposals));
        }
        let mut q: usize = 0;
        while q < generation.population.len()
            invariant
                self.wf(),
                self.config() == config,
                self.objective() == old(self).objective(),
                self.arithmetic() == old(self).arithmetic(),
                config == old(self).config(),
                start == old(self).arms(),
                table == old(self).lookup(),
                current == generation.current_indexes@,
                proposals == generation.proposals@,
                population == generation.population@,
                fits(start, table, config, current, population, proposals),
                extends(self.arms(), start),
                indexes_new_arms(start, old(self).lookup(), self.arms(), self.lookup()),
                pulls_made(&self.objective(), &self.arithmetic(), start, self.arms()),
                forall|w: Seq<i32>| #[trigger]
                    table.contains_key(w) ==> self.lookup().contains_key(w),
                whole == plan(table, current, population, proposals),
                whole.len() == wanted_count(table, current, proposals) + population.len(),
                lookup_matches(start, table),
                is_evaluated(
                    start,
                    table,
                    self.arms(),
                    whole.take(wanted_count(table, current, proposals) as int + q),
                ),
                simulations_used <= used < simulation_budget,
                used == simulations_used + wanted_count(table, current, proposals) + q,
                self.arms().len() == start.len() + unknown_count(table, proposals),
                self.evaluations() == total_pulls(start) + (used - simulations_used),
                total_pulls(start) + (simulation_budget - simulations_used) <= i32::MAX,
                q <= population.len(),
            decreases population.len() - q,
        {
            let arm_index: i32 = self.get_arm_index(&generation.population[q]);
            let individual: Arm = generation.population[q].clone();
            let ghost previous = self.arms();
            let ghost now = self.lookup();
            self.sample_and_update(arm_index, individual);
            proof {
                lemma_indexes_new_arms_chain(
                    start,
                    table,
                    previous,
                    now,
                    self.arms(),
                    self.lookup(),
                );
                lemma_pulls_made_chain(
                    &self.objective(),
                    &self.arithmetic(),
                    start,
                    previous,
                    self.arms(),
                );
                let w = wanted_count(table, current, proposals) as int;
                let v = population[q as int]@.action_vector;
                assert(crate::genetic::vectors_of(population)[q as int] == v);
                assert(whole[w + q] == v);
                lemma_evaluated_known(start, table, previous, self.arms(), whole.take(w + q), v);
                assert(whole.take(w + q + 1) =~= whole.take(w + q).push(v));
            }
            used = used + 1;
            if used >= simulation_budget {
                return used;
            }
            q = q + 1;
        }
        proof {
            assert(whole.take(whole.len() as int) =~= whole);
        }
        used
    }

    /// One generation: the best arms are shuffled, crossed and mutated; each
    /// proposal that is not one of them is evaluated, as a new arm or as the
    /// arm that has its vector; then each of the best arms is evaluated once
    /// more. The generation ends early when `simulation_budget` is reached.
    ///
    /// Returns the number of evaluations spent since the count began, of
    /// which `simulations_used` were spent before this generation. Unless the
    /// budget ends it, a generation spends at least one evaluation for each
    /// arm of a population and at most two. What is evaluated is the plan of
    /// the generation that was drawn up, in its order.
    pub fn run_generation(&mut self, simulations_used: usize, simulation_budget: usize) -> (used:
        usize)
        requires
            old(self).wf(),
            simulations_used < simulation_budget,
            old(self).evaluations() + (simulation_budget - simulations_used) <= i32::MAX,
        ensures
            final(self).wf(),
            final(self).config() == old(self).config(),
            final(self).objective() == old(self).objective(),
            final(self).arithmetic() == old(self).arithmetic(),
            simulations_used < used <= simulation_budget,
            final(self).evaluations() == old(self).evaluations() + (used - simulations_used),
            extends(final(self).arms(), old(self).arms()),
            indexes_new_arms(
                old(self).arms(),
                old(self).lookup(),
                final(self).arms(),
                final(self).lookup(),
            ),
            pulls_made(
                &old(self).objective(),
                &old(self).arithmetic(),
                old(self).arms(),
                final(self).arms(),
            ),
            used - simulations_used <= 2 * old(self).config().population_size,
            used < simulation_budget ==> used - simulations_used >= old(self).config().population_size,
            final(self).arms().len() <= old(self).arms().len() + old(self).config().population_size,
            exists|current: Seq<i32>, population: Seq<Arm>, proposals: Seq<Arm>|
                {
                    &&& #[trigger] is_generation(
                        old(self).arms(),
                        old(self).ranks(),
                        old(self).config(),
                        current,
                        population,
                        proposals,
                    )
                    &&& used == spent_after(
                        simulations_used as int,
                        simulation_budget as int,
                        planned(old(self).lookup(), current, population, proposals),
                    )
                    &&& is_evaluated(
                        old(self).arms(),
                        old(self).lookup(),
                        final(self).arms(),
                        plan(old(self).lookup(), current, population, proposals).take(
                            used - simulations_used,
                        ),
                    )
                },
    {
        let generation: Generation = self.propose();
        proof {
            lemma_generation_size(
                self.arms(),
                self.ranks(),
                self.lookup(),
                self.config(),
                generation.current_indexes@,
                generation.population@,
                generation.proposals@,
            );
        }
        self.evaluate_generation(&generation, simulations_used, simulation_budget)
    }

    /// Spends `simulation_budget` evaluations, generation after generation,
    /// and returns the vector of the arm that the final choice names. A
    /// budget of 0 is served as a budget of 1.
    ///
    /// The pool keeps every arm it had, each at its index. Every pull that is
    /// added is one evaluation of the objective at the arm's vector, and every
    /// arm that is made has a vector that no other arm has.
    pub fn optimize(&mut self, simulation_budget: usize) -> (best: Vec<i32>)
        requires
            old(self).wf(),
            old(self).evaluations() + simulation_budget <= i32::MAX,
            old(self).evaluations() < i32::MAX,
        ensures
            final(self).wf(),
            final(self).config() == old(self).config(),
            final(self).objective() == old(self).objective(),
            final(self).arithmetic() == old(self).arithmetic(),
            final(self).evaluations() == old(self).evaluations() + served_budget(simulation_budget),
            extends(final(self).arms(), old(self).arms()),
            indexes_new_arms(
                old(self).arms(),
                old(self).lookup(),
                final(self).arms(),
                final(self).lookup(),
            ),
            pulls_made(
                &old(self).objective(),
                &old(self).arithmetic(),
                old(self).arms(),
                final(self).arms(),
            ),
            exists|rounds: Seq<Round>|
                {
                    &&& #[trigger] is_run(
                        &old(self).objective(),
                        &old(self).arithmetic(),
                        old(self).config(),
                        served_budget(simulation_budget) as int,
                        rounds,
                    )
                    &&& rounds.first() == old(self).round(0)
                    &&& rounds.last() == final(self).round(served_budget(simulation_budget) as int)
                },
            exists|index: i32|
                {
                    &&& 0 <= index < final(self).arms().len()
                    &&& #[trigger] is_final_choice(
                        &final(self).arithmetic(),
                        final(self).arms(),
                        final(self).ranks(),
                        served_budget(simulation_budget),
                        index,
                    )
                    &&& best@ == final(self).arms()[index as int]@.action_vector
                },
            within_bounds(best@, final(self).config().lower_bound, final(self).config().upper_bound),
    {
        let target: usize = if simulation_budget == 0 {
            1
        } else {
            simulation_budget
        };
        let ghost start = self.arms();
        let ghost config = self.config();
        let mut used: usize = 0;
        let ghost mut rounds: Seq<Round> = seq![self.round(0)];
        while used < target
            invariant
                rounds.len() >= 1,
                rounds.first() == old(self).round(0),
                rounds.last() == self.round(used as int),
                forall|k: int|
                    0 <= k < rounds.len() - 1 ==> is_generation_step(
                        &self.objective(),
                        &self.arithmetic(),
                        config,
                        target as int,
                        #[trigger] rounds[k],
                        rounds[k + 1],
                    ),
                self.wf(),
                self.config() == config,
                self.objective() == old(self).objective(),
                self.arithmetic() == old(self).arithmetic(),
                extends(self.arms(), start),
                indexes_new_arms(start, old(self).lookup(), self.arms(), self.lookup()),
                pulls_made(&self.objective(), &self.arithmetic(), start, self.arms()),
                used <= target,
                self.evaluations() == total_pulls(start) + used,
                total_pulls(start) + target <= i32::MAX,
            decreases target - used,
        {
            let ghost previous = self.arms();
            let ghost now = self.lookup();
            let ghost before = rounds;
            let ghost earlier = self.round(used as int);
            used = self.run_generation(used, target);
            proof {
                let later = self.round(used as int);
                rounds = before.push(later);
                assert(before.last() == earlier);
                assert(rounds.last() == later);
                assert(rounds[before.len() - 1] == earlier);
                let (current, population, proposals) = choose|
                    current: Seq<i32>,
                    population: Seq<Arm>,
                    proposals: Seq<Arm>,
                |
                    {
                        &&& #[trigger] is_generation(
                            earlier.arms,
                            earlier.ranks,
                            config,
                            current,
                            population,
                            proposals,
                        )
                        &&& later.used == spent_after(
                            earlier.used,
                            target as int,
                            planned(earlier.lookup, current, population, proposals),
                        )
                        &&& is_evaluated(
                            earlier.arms,
                            earlier.lookup,
                            later.arms,
                            plan(earlier.lookup, current, population, proposals).take(
                                later.used - earlier.used,
                            ),
                        )
                    };
                assert(is_generation(
                    earlier.arms,
                    earlier.ranks,
                    config,
                    current,
                    population,
                    proposals,
                ));
                assert(is_generation_step(
                    &self.objective(),
                    &self.arithmetic(),
                    config,
                    target as int,
                    earlier,
                    later,
                ));
                assert forall|k: int| 0 <= k < rounds.len() - 1 implies is_generation_step(
                    &self.objective(),
                    &self.arithmetic(),
                    config,
                    target as int,
                    #[trigger] rounds[k],
                    rounds[k + 1],
                ) by {
                    if k < before.len() - 1 {
                        assert(rounds[k] == before[k] && rounds[k + 1] == before[k + 1]);
                    }
                }
                lemma_indexes_new_arms_chain(
                    start,
                    old(self).lookup(),
                    previous,
                    now,
                    self.arms(),
                    self.lookup(),
                );
                lemma_pulls_made_chain(
                    &self.objective(),
                    &self.arithmetic(),
                    start,
                    previous,
                    self.arms(),
                );
            }
        }
        let index: i32 = self.find_best_ucb(used);
        let best: Vec<i32> = copy_vector(self.arm_memory[index as usize].get_action_vector());
        proof {
            assert(used == served_budget(simulation_budget));
            assert(is_run(
                &self.objective(),
                &self.arithmetic(),
                config,
                served_budget(simulation_budget) as int,
                rounds,
            ));
            assert(is_final_choice(
                &self.arithmetic(),
                self.arms(),
                self.ranks(),
                served_budget(simulation_budget),
                index,
            ));
        }
        best
    }
}

} // verus!
