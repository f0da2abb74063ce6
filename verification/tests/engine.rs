use gmab_rust::arm::{Arm, Numerics, OptimizationFn};
use gmab_rust::float_key::FloatKey;
use gmab_rust::genetic::ConfigError;
use gmab_rust::generation::{contains_index, Generation};
use gmab_rust::gmab::Gmab;
use gmab_rust::pool::copy_vector;
use gmab_rust::selection::select_best;
use rand::distributions::{Bernoulli, Distribution};
use rand::rngs::StdRng;
use rand::SeedableRng;
use rand_distr::Normal;
use std::cell::RefCell;

fn key(x: f64) -> FloatKey {
    FloatKey::new(x.to_bits()).unwrap()
}

fn value(k: FloatKey) -> f64 {
    f64::from_bits(k.to_bits())
}

/// An objective given by a function, which keeps a list of the points it was asked for.
struct Objective {
    function: fn(&[i32]) -> f64,
    asked: RefCell<Vec<Vec<i32>>>,
}

impl Objective {
    fn new(function: fn(&[i32]) -> f64) -> Objective {
        Objective { function, asked: RefCell::new(Vec::new()) }
    }

    fn calls(&self) -> usize {
        self.asked.borrow().len()
    }
}

impl OptimizationFn for Objective {
    fn evaluate(&self, action_vector: &[i32]) -> FloatKey {
        self.asked.borrow_mut().push(action_vector.to_vec());
        key((self.function)(action_vector))
    }
}

struct Doubles {
    mutation_span: f64,
}

impl Numerics for Doubles {
    fn running_mean(&self, mean: FloatKey, sample: FloatKey, num_pulls: i32) -> FloatKey {
        let mean = value(mean);
        key(mean + (value(sample) - mean) / num_pulls as f64)
    }

    fn confidence_bound(
        &self,
        mean: FloatKey,
        min_mean: FloatKey,
        max_mean: FloatKey,
        simulations_used: usize,
        num_pulls: i32,
    ) -> Option<FloatKey> {
        let normalized = (value(mean) - value(min_mean)) / (value(max_mean) - value(min_mean));
        let bonus = (2.0 * (simulations_used as f64).ln() / num_pulls as f64).sqrt();
        FloatKey::new((normalized + bonus).to_bits()).ok()
    }

    fn mutation_step(&self, rng: &mut StdRng, lower: i32, upper: i32) -> i64 {
        let deviation = self.mutation_span * (upper as f64 - lower as f64);
        Normal::new(0.0, deviation).unwrap().sample(rng).round() as i64
    }
}

fn mock_opti_function(_vec: &[i32]) -> f64 {
    0.0
}

fn weighted(v: &[i32]) -> f64 {
    v.iter().fold(0.0, |sum, x| sum * 1000.0 + *x as f64)
}

fn bowl(v: &[i32]) -> f64 {
    ((v[0] - 3) * (v[0] - 3) + (v[1] + 2) * (v[1] + 2)) as f64
}

#[allow(clippy::too_many_arguments)]
fn engine(
    function: fn(&[i32]) -> f64,
    seed: u64,
    population_size: usize,
    mutation_rate: f64,
    crossover_rate: f64,
    mutation_span: f64,
    dimension: usize,
    lower_bound: Vec<i32>,
    upper_bound: Vec<i32>,
) -> Result<Gmab<Objective, Doubles>, ConfigError> {
    Gmab::new(
        Objective::new(function),
        Doubles { mutation_span },
        StdRng::seed_from_u64(seed),
        population_size,
        Bernoulli::new(mutation_rate).unwrap(),
        Bernoulli::new(crossover_rate).unwrap(),
        dimension,
        lower_bound,
        upper_bound,
    )
}

/// The engine of the scenarios below, from the first seed that gives a first
/// population without equal arms and with the vector [1, 2] at index 0.
fn scenario(function: fn(&[i32]) -> f64) -> Gmab<Objective, Doubles> {
    for seed in 0..1_000_000 {
        let gmab =
            engine(function, seed, 10, 0.1, 0.9, 0.5, 2, vec![0, 0], vec![10, 10]).unwrap();
        if gmab.arm_memory()[0].get_action_vector() == [1, 2] && gmab.lookup_table().len() == 10 {
            return gmab;
        }
    }
    unreachable!()
}

/// Vectors between the bounds of the scenario that the pool does not hold.
fn unknown_vectors(gmab: &Gmab<Objective, Doubles>, count: usize) -> Vec<Vec<i32>> {
    let mut vectors = Vec::new();
    for x in 0..=10 {
        for y in 0..=10 {
            if vectors.len() < count && gmab.get_arm_index(&Arm::new(&[x, y])) == -1 {
                vectors.push(vec![x, y]);
            }
        }
    }
    vectors
}

/// Whether the three views of the population agree.
fn consistent(gmab: &Gmab<Objective, Doubles>) -> bool {
    let arms = gmab.arm_memory();
    let entries = gmab.sample_average_tree().iter();
    let sorted = entries.windows(2).all(|pair| pair[0].0.le(&pair[1].0));
    let mut ranked: Vec<i32> = entries.iter().map(|entry| entry.1).collect();
    ranked.sort();
    let each_once = ranked == (0..arms.len() as i32).collect::<Vec<i32>>();
    let keys = entries.iter().all(|entry| entry.0 == arms[entry.1 as usize].get_mean_reward());
    let found = arms.iter().all(|arm| {
        match gmab.lookup_table().get(arm.get_action_vector()) {
            Some(index) => arms[index as usize].get_action_vector() == arm.get_action_vector(),
            None => false,
        }
    });
    sorted && each_once && keys && found && gmab.lookup_table().len() <= arms.len()
}

/// The final choice as the formulas give it, from what the engine shows.
fn expected_choice(gmab: &Gmab<Objective, Doubles>, simulations_used: usize) -> i32 {
    let arms = gmab.arm_memory();
    let entries = gmab.sample_average_tree().iter();
    let max_pulls = arms.iter().map(|arm| arm.get_num_pulls()).max().unwrap();
    let min_mean = value(entries[0].0);
    let mut max_mean = min_mean;
    for entry in &entries {
        max_mean = f64::max(max_mean, value(arms[entry.1 as usize].get_mean_reward()));
        if arms[entry.1 as usize].get_num_pulls() == max_pulls {
            break;
        }
    }
    let mut best = 0;
    let mut best_score = f64::MAX;
    for entry in &entries {
        let arm = &arms[entry.1 as usize];
        if max_mean == min_mean {
            best = entry.1;
        }
        let score = (value(arm.get_mean_reward()) - min_mean) / (max_mean - min_mean)
            + (2.0 * (simulations_used as f64).ln() / arm.get_num_pulls() as f64).sqrt();
        if score < best_score {
            best = entry.1;
            best_score = score;
        }
        if arm.get_num_pulls() == max_pulls {
            break;
        }
    }
    best
}

#[test]
fn test_gmab_new() {
    let gmab = scenario(mock_opti_function);
    assert_eq!(gmab.genetic_algorithm().population_size(), 10);
    assert_eq!(gmab.arm_memory().len(), 10);
    assert_eq!(gmab.lookup_table().len(), 10);

    // count the elements in sample_average_tree
    let mut count = 0;
    for _ in gmab.sample_average_tree().iter() {
        count += 1;
    }
    assert_eq!(count, 10);
}

#[test]
fn test_gmab_get_arm_index_with_existing() {
    let gmab = scenario(mock_opti_function);
    let arm = Arm::new(&vec![1, 2]);
    assert_eq!(gmab.get_arm_index(&arm), 0);
}

#[test]
fn test_gmab_max_number_pulls() {
    let gmab = scenario(mock_opti_function);
    assert_eq!(gmab.max_number_pulls(), 1);
}

#[test]
fn test_gmab_find_best_ucb() {
    let gmab = scenario(mock_opti_function);
    assert_eq!(gmab.find_best_ucb(100), 0);
}

#[test]
fn test_gmab_find_best_ucb_with_existing() {
    let mut gmab = scenario(mock_opti_function);

    let arm = Arm::new(&vec![1, 2]);
    let arm2 = Arm::new(&vec![1, 2]);

    gmab.sample_and_update(0, arm.clone());
    gmab.sample_and_update(1, arm2.clone());

    assert_eq!(gmab.find_best_ucb(100), 0);
}

#[test]
fn test_gmab_sample_and_update_with_existing() {
    let mut gmab = scenario(mock_opti_function);

    let arm = Arm::new(&vec![1, 2]);

    gmab.sample_and_update(0, arm.clone());

    assert_eq!(gmab.arm_memory()[0].get_num_pulls(), 2);
    assert_eq!(value(gmab.arm_memory()[0].get_mean_reward()), 0.0);
    assert_eq!(gmab.lookup_table().get(arm.get_action_vector()), Some(0));
}

#[test]
fn get_arm_index_of_an_unknown_vector_is_minus_one() {
    let gmab = scenario(mock_opti_function);
    assert_eq!(gmab.get_arm_index(&Arm::new(&[11, 11])), -1);
    assert_eq!(gmab.get_arm_index(&Arm::new(&[1])), -1);
}

#[test]
fn construction_pulls_each_arm_once() {
    for seed in 0..20 {
        let gmab =
            engine(weighted, seed, 7, 0.1, 0.9, 0.5, 3, vec![0, -2, 5], vec![3, 2, 5]).unwrap();
        assert_eq!(gmab.arm_memory().len(), 7);
        assert_eq!(gmab.sample_average_tree().len(), 7);
        assert!(gmab.lookup_table().len() <= 7);
        assert_eq!(gmab.opti_function().calls(), 7);
        assert_eq!(gmab.evaluations_spent(), 7);
        assert!(consistent(&gmab));
        for (index, arm) in gmab.arm_memory().iter().enumerate() {
            let v = arm.get_action_vector();
            assert_eq!(arm.get_num_pulls(), 1);
            assert_eq!(value(arm.get_mean_reward()), weighted(v));
            assert!(0 <= v[0] && v[0] <= 3 && -2 <= v[1] && v[1] <= 2 && v[2] == 5);
            // Of equal arms the deduplication index names the last.
            let last = gmab
                .arm_memory()
                .iter()
                .rposition(|other| other.get_action_vector() == v)
                .unwrap();
            assert!(last >= index);
            assert_eq!(gmab.lookup_table().get(v), Some(last as i32));
        }
    }
}

#[test]
fn construction_with_one_point_holds_equal_arms() {
    let gmab = engine(weighted, 1, 4, 0.1, 0.9, 0.5, 1, vec![6], vec![6]).unwrap();
    assert_eq!(gmab.arm_memory().len(), 4);
    assert_eq!(gmab.sample_average_tree().len(), 4);
    assert_eq!(gmab.lookup_table().len(), 1);
    assert_eq!(gmab.get_arm_index(&Arm::new(&[6])), 3);
    assert!(consistent(&gmab));
}

#[test]
fn construction_refuses_malformed_configurations() {
    let refused = |population_size, dimension, lower: Vec<i32>, upper: Vec<i32>| {
        engine(weighted, 0, population_size, 0.1, 0.9, 0.5, dimension, lower, upper).err()
    };
    assert_eq!(refused(0, 2, vec![0, 0], vec![1, 1]), Some(ConfigError::EmptyPopulation));
    assert_eq!(
        refused(i32::MAX as usize + 1, 2, vec![0, 0], vec![1, 1]),
        Some(ConfigError::PopulationTooLarge)
    );
    assert_eq!(refused(3, 0, vec![], vec![]), Some(ConfigError::ZeroDimension));
    assert_eq!(refused(3, 2, vec![0], vec![1, 1]), Some(ConfigError::DimensionMismatch));
    assert_eq!(refused(3, 2, vec![0, 0], vec![1, 1, 1]), Some(ConfigError::DimensionMismatch));
    assert_eq!(refused(3, 2, vec![0, 5], vec![1, 4]), Some(ConfigError::InvertedBounds));
    assert_eq!(refused(3, 2, vec![0, 4], vec![1, 4]), None);
}

#[test]
fn sample_and_update_moves_the_rank_entry() {
    fn noisy(v: &[i32]) -> f64 {
        v[0] as f64
    }
    let mut gmab = engine(noisy, 2, 3, 0.1, 0.9, 0.5, 1, vec![0], vec![100]).unwrap();
    let before = gmab.sample_average_tree().iter();
    let worst = before[2].1;
    let individual = gmab.arm_memory()[worst as usize].clone();
    gmab.sample_and_update(worst, individual);
    assert_eq!(gmab.sample_average_tree().iter(), before);
    assert_eq!(gmab.arm_memory()[worst as usize].get_num_pulls(), 2);
    assert_eq!(gmab.max_number_pulls(), 2);
    assert_eq!(gmab.evaluations_spent(), 4);
    assert!(consistent(&gmab));
}

#[test]
fn sample_and_update_adds_a_new_arm() {
    let mut gmab = scenario(weighted);
    let vector = unknown_vectors(&gmab, 1).remove(0);
    let mean = weighted(&vector);
    assert_eq!(gmab.get_arm_index(&Arm::new(&vector)), -1);
    gmab.sample_and_update(-1, Arm::new(&vector));
    assert_eq!(gmab.arm_memory().len(), 11);
    assert_eq!(gmab.arm_memory()[10].get_action_vector(), &vector[..]);
    assert_eq!(gmab.arm_memory()[10].get_num_pulls(), 1);
    assert_eq!(value(gmab.arm_memory()[10].get_mean_reward()), mean);
    assert_eq!(gmab.get_arm_index(&Arm::new(&vector)), 10);
    assert_eq!(gmab.lookup_table().len(), 11);
    assert_eq!(gmab.sample_average_tree().len(), 11);
    assert!(gmab.sample_average_tree().iter().contains(&(key(mean), 10)));
    assert_eq!(gmab.evaluations_spent(), 11);
    assert!(consistent(&gmab));
}

#[test]
fn sample_and_update_takes_every_negative_index_as_new() {
    let mut gmab = scenario(weighted);
    let vectors = unknown_vectors(&gmab, 2);
    gmab.sample_and_update(-7, Arm::new(&vectors[0]));
    gmab.sample_and_update(i32::MIN, Arm::new(&vectors[1]));
    assert_eq!(gmab.arm_memory().len(), 12);
    assert_eq!(gmab.get_arm_index(&Arm::new(&vectors[0])), 10);
    assert_eq!(gmab.get_arm_index(&Arm::new(&vectors[1])), 11);
    assert_eq!(value(gmab.arm_memory()[11].get_mean_reward()), weighted(&vectors[1]));
    assert!(consistent(&gmab));
}

#[test]
fn construction_ranks_arms_of_one_mean_in_the_order_of_the_pool() {
    let gmab = scenario(mock_opti_function);
    let order: Vec<i32> = gmab.sample_average_tree().iter().iter().map(|entry| entry.1).collect();
    assert_eq!(order, vec![0, 1, 2, 3, 4, 5, 6, 7, 8, 9]);
    for arm in gmab.arm_memory() {
        assert_eq!(value(arm.get_mean_reward()), 0.0);
        assert_eq!(arm.get_num_pulls(), 1);
    }
    // The objective was asked once for each arm, in the order of the pool.
    let asked: Vec<Vec<i32>> = gmab.opti_function().asked.borrow().clone();
    let pool: Vec<Vec<i32>> =
        gmab.arm_memory().iter().map(|arm| arm.get_action_vector().to_vec()).collect();
    assert_eq!(asked, pool);
}

/// An objective that returns 1.0, 2.0, 3.0 and so on, whatever the point.
struct Rising {
    asked: RefCell<Vec<Vec<i32>>>,
}

impl OptimizationFn for Rising {
    fn evaluate(&self, action_vector: &[i32]) -> FloatKey {
        self.asked.borrow_mut().push(action_vector.to_vec());
        key(self.asked.borrow().len() as f64)
    }
}

#[test]
fn sample_and_update_folds_one_evaluation_into_the_mean() {
    let mut gmab = Gmab::new(
        Rising { asked: RefCell::new(Vec::new()) },
        Doubles { mutation_span: 0.5 },
        StdRng::seed_from_u64(3),
        4,
        Bernoulli::new(0.1).unwrap(),
        Bernoulli::new(0.9).unwrap(),
        2,
        vec![0, 0],
        vec![100, 100],
    )
    .unwrap();
    // The four arms have the means 1, 2, 3 and 4. Arm 2 is pulled twice more:
    // its samples are 3, 5 and 6, its means 3, 4 and 14/3.
    let arm = gmab.arm_memory()[2].clone();
    gmab.sample_and_update(2, arm.clone());
    assert_eq!(value(gmab.arm_memory()[2].get_mean_reward()), 4.0);
    gmab.sample_and_update(2, arm.clone());
    assert_eq!(gmab.arm_memory()[2].get_num_pulls(), 3);
    assert_eq!(value(gmab.arm_memory()[2].get_mean_reward()), 4.0 + (6.0 - 4.0) / 3.0);
    let asked = gmab.opti_function().asked.borrow().clone();
    assert_eq!(asked.len(), 6);
    assert_eq!(asked[4], arm.get_action_vector());
    assert_eq!(asked[5], arm.get_action_vector());
    let order: Vec<i32> = gmab.sample_average_tree().iter().iter().map(|entry| entry.1).collect();
    assert_eq!(order, vec![0, 1, 3, 2]);
}

#[test]
fn resampled_arm_goes_behind_the_arms_of_its_mean() {
    let mut gmab = scenario(mock_opti_function);
    gmab.sample_and_update(0, Arm::new(&[1, 2]));
    gmab.sample_and_update(1, Arm::new(&[1, 2]));
    let order: Vec<i32> = gmab.sample_average_tree().iter().iter().map(|entry| entry.1).collect();
    assert_eq!(order, vec![2, 3, 4, 5, 6, 7, 8, 9, 0, 1]);
    assert_eq!(gmab.max_number_pulls(), 2);
    // The front ends with the first arm that was pulled twice.
    let front: Vec<i32> = gmab.non_dominated_front().iter().map(|entry| entry.1).collect();
    assert_eq!(front, vec![2, 3, 4, 5, 6, 7, 8, 9, 0]);
}

#[test]
fn select_best_takes_the_first_least_score() {
    let front = vec![(key(0.0), 5), (key(1.0), 3), (key(2.0), 9), (key(3.0), 4)];
    let scores = |values: [f64; 4]| -> Vec<Option<FloatKey>> {
        values.iter().map(|x| FloatKey::new(x.to_bits()).ok()).collect()
    };
    assert_eq!(select_best(&front, &scores([2.0, 1.0, 1.0, 1.5])), 3);
    assert_eq!(select_best(&front, &scores([0.5, 1.0, 0.25, 0.25])), 9);
    assert_eq!(select_best(&front, &scores([f64::NAN, 7.0, f64::NAN, 8.0])), 3);
    assert_eq!(select_best(&front, &scores([f64::NAN, f64::NAN, f64::NAN, f64::NAN])), 0);
    assert_eq!(select_best(&front, &scores([f64::MAX, f64::INFINITY, f64::MAX, f64::NAN])), 0);
    assert_eq!(select_best(&front, &scores([f64::MAX, f64::NEG_INFINITY, -1.0, 0.0])), 3);
    assert_eq!(select_best(&vec![], &vec![]), 0);
}

#[test]
fn find_best_ucb_follows_the_formulas() {
    for seed in 0..10 {
        let mut gmab =
            engine(bowl, seed, 6, 0.3, 0.9, 0.3, 2, vec![-5, -5], vec![5, 5]).unwrap();
        let mut used = 0;
        for round in 0..30 {
            used = gmab.run_generation(used, 10_000);
            let n = used + round;
            let choice = gmab.find_best_ucb(n);
            assert_eq!(choice, expected_choice(&gmab, n));
            assert_eq!(gmab.find_best_ucb(n), choice);
            assert!(consistent(&gmab));
        }
    }
}

#[test]
fn find_best_ucb_weighs_mean_against_pulls() {
    fn first(v: &[i32]) -> f64 {
        v[0] as f64
    }
    // One arm per point from 0 to 3, whatever the order in the pool.
    let mut gmab = (0..1_000_000)
        .map(|seed| engine(first, seed, 4, 0.1, 0.9, 0.5, 1, vec![0], vec![3]).unwrap())
        .find(|gmab| gmab.lookup_table().len() == 4)
        .unwrap();
    let index = |gmab: &Gmab<Objective, Doubles>, x: i32| gmab.get_arm_index(&Arm::new(&[x]));
    let best = index(&gmab, 0);
    let second = index(&gmab, 1);
    // All pulled once: the front is the arm with the least mean alone.
    assert_eq!(gmab.non_dominated_front(), vec![(key(0.0), best)]);
    assert_eq!(gmab.find_best_ucb(4), best);
    // The arm of mean 1 gets 99 pulls more. The front is now the first two arms;
    // their scores are 0 + sqrt(2 ln 103 / 1) and 1 + sqrt(2 ln 103 / 100).
    for _ in 0..99 {
        gmab.sample_and_update(second, Arm::new(&[1]));
    }
    assert_eq!(gmab.max_number_pulls(), 100);
    assert_eq!(gmab.non_dominated_front(), vec![(key(0.0), best), (key(1.0), second)]);
    assert_eq!(gmab.find_best_ucb(103), second);
    // With three pulls the arm with the least mean scores sqrt(2 ln 105 / 3), still more.
    gmab.sample_and_update(best, Arm::new(&[0]));
    gmab.sample_and_update(best, Arm::new(&[0]));
    assert_eq!(gmab.find_best_ucb(105), second);
    // With 25 pulls it scores sqrt(2 ln 127 / 25) = 0.62.., less than 1 + 0.31..
    for _ in 0..22 {
        gmab.sample_and_update(best, Arm::new(&[0]));
    }
    assert_eq!(gmab.find_best_ucb(127), best);
    assert!(consistent(&gmab));
}

#[test]
fn optimize_spends_the_budget_exactly() {
    for (seed, budget) in [(1, 1), (2, 2), (3, 9), (4, 10), (5, 11), (6, 37), (7, 400)] {
        let mut gmab =
            engine(bowl, seed, 10, 0.25, 0.9, 0.3, 2, vec![-5, -5], vec![5, 5]).unwrap();
        assert_eq!(gmab.opti_function().calls(), 10);
        let best = gmab.optimize(budget);
        assert_eq!(gmab.opti_function().calls(), 10 + budget);
        assert_eq!(gmab.evaluations_spent(), 10 + budget as i64);
        let pulls: i64 = gmab.arm_memory().iter().map(|arm| arm.get_num_pulls() as i64).sum();
        assert_eq!(pulls, 10 + budget as i64);
        assert!(consistent(&gmab));
        assert_eq!(best.len(), 2);
        assert!(best.iter().all(|x| -5 <= *x && *x <= 5));
        assert!(gmab.get_arm_index(&Arm::new(&best)) >= 0);
        // A second run spends its own budget on top.
        gmab.optimize(budget);
        assert_eq!(gmab.opti_function().calls(), 10 + 2 * budget);
    }
}

#[test]
fn optimize_with_no_budget_spends_one_evaluation() {
    let mut gmab = engine(bowl, 1, 10, 0.25, 0.9, 0.3, 2, vec![-5, -5], vec![5, 5]).unwrap();
    let best = gmab.optimize(0);
    assert_eq!(gmab.opti_function().calls(), 11);
    assert_eq!(gmab.evaluations_spent(), 11);
    assert_eq!(best.len(), 2);
    assert!(consistent(&gmab));
}

#[test]
fn optimize_keeps_every_arm_at_its_index() {
    let mut gmab = engine(bowl, 9, 10, 0.25, 0.9, 0.3, 2, vec![-5, -5], vec![5, 5]).unwrap();
    let before: Vec<(Vec<i32>, i32)> = gmab
        .arm_memory()
        .iter()
        .map(|arm| (arm.get_action_vector().to_vec(), arm.get_num_pulls()))
        .collect();
    let vectors = gmab.lookup_table().len();
    gmab.optimize(200);
    assert!(gmab.arm_memory().len() >= before.len());
    // The deduplication index grew by as many vectors as the pool by arms.
    assert_eq!(gmab.lookup_table().len() - vectors, gmab.arm_memory().len() - before.len());
    for (index, (vector, pulls)) in before.iter().enumerate() {
        assert_eq!(gmab.arm_memory()[index].get_action_vector(), &vector[..]);
        assert!(gmab.arm_memory()[index].get_num_pulls() >= *pulls);
    }
    // No vector is in the pool twice but those of the first population.
    for (index, arm) in gmab.arm_memory().iter().enumerate().skip(10) {
        assert_eq!(gmab.get_arm_index(arm), index as i32);
    }
}

#[test]
fn run_generation_spends_between_one_and_two_populations() {
    let mut gmab = engine(bowl, 4, 10, 0.25, 0.9, 0.3, 2, vec![-5, -5], vec![5, 5]).unwrap();
    let mut used = 0;
    for _ in 0..50 {
        let arms = gmab.arm_memory().len();
        let next = gmab.run_generation(used, 100_000);
        assert!(used + 10 <= next && next <= used + 20);
        assert!(gmab.arm_memory().len() <= arms + 10);
        assert_eq!(gmab.opti_function().calls(), 10 + next);
        used = next;
    }
    assert_eq!(gmab.run_generation(used, used + 3), used + 3);
    assert_eq!(gmab.opti_function().calls(), 10 + used + 3);
}

#[test]
fn run_generation_samples_the_best_arms_in_shuffled_order() {
    let mut gmab = (0..1_000_000)
        .map(|seed| {
            engine(weighted, seed, 10, 0.0, 0.0, 0.5, 2, vec![0, 0], vec![999, 999]).unwrap()
        })
        .find(|gmab| gmab.lookup_table().len() == 10)
        .unwrap();
    let ranked: Vec<Vec<i32>> = gmab
        .sample_average_tree()
        .iter()
        .iter()
        .map(|entry| gmab.arm_memory()[entry.1 as usize].get_action_vector().to_vec())
        .collect();
    // Without mutation and crossover every proposal is one of the best arms,
    // so the generation only samples those once more, in the shuffled order.
    assert_eq!(gmab.run_generation(0, 100), 10);
    assert_eq!(gmab.arm_memory().len(), 10);
    let asked: Vec<Vec<i32>> = gmab.opti_function().asked.borrow()[10..].to_vec();
    assert_ne!(asked, ranked);
    let mut sorted = asked.clone();
    sorted.sort_by(|a, b| weighted(a).partial_cmp(&weighted(b)).unwrap());
    assert_eq!(sorted, ranked);
    assert!(gmab.arm_memory().iter().all(|arm| arm.get_num_pulls() == 2));
}

#[test]
fn optimize_finds_the_minimizer_of_a_deterministic_objective() {
    for seed in [1, 2, 3] {
        let mut gmab =
            engine(bowl, seed, 10, 0.25, 0.9, 0.3, 2, vec![-5, -5], vec![5, 5]).unwrap();
        assert_eq!(gmab.optimize(3000), vec![3, -2]);
    }
}

#[test]
fn propose_draws_from_the_best_arms() {
    let mut gmab = engine(bowl, 3, 6, 0.3, 0.9, 0.3, 2, vec![-5, -5], vec![5, 5]).unwrap();
    gmab.optimize(100);
    for _ in 0..20 {
        let arms = gmab.arm_memory().len();
        let ranks = gmab.sample_average_tree().iter();
        let generation = gmab.propose();
        assert_eq!(gmab.arm_memory().len(), arms);
        assert_eq!(gmab.sample_average_tree().iter(), ranks);
        let best: Vec<i32> = ranks[..6].iter().map(|entry| entry.1).collect();
        assert_eq!(generation.current_indexes, best);
        assert_eq!(generation.population.len(), 6);
        let mut drawn: Vec<i32> =
            generation.population.iter().map(|arm| gmab.get_arm_index(arm)).collect();
        drawn.sort();
        let mut sorted = best.clone();
        sorted.sort();
        assert_eq!(drawn, sorted);
        assert!(generation.proposals.len() <= 6);
        for (i, proposal) in generation.proposals.iter().enumerate() {
            let v = proposal.get_action_vector();
            assert_eq!(proposal.get_num_pulls(), 0);
            assert!(v.len() == 2 && v.iter().all(|x| -5 <= *x && *x <= 5));
            assert!(generation.proposals[..i].iter().all(|other| other.get_action_vector() != v));
        }
    }
}

#[test]
fn evaluate_generation_passes_over_the_current_arms() {
    for seed in 0..5 {
        let mut gmab =
            engine(bowl, seed, 6, 0.3, 0.9, 0.3, 2, vec![-5, -5], vec![5, 5]).unwrap();
        let mut used = 0;
        for round in 0..40 {
            let budget = if round % 7 == 6 { used + 4 } else { 100_000 };
            let generation = gmab.propose();
            let wanted = generation
                .proposals
                .iter()
                .filter(|arm| !generation.current_indexes.contains(&gmab.get_arm_index(arm)))
                .count();
            let unknown =
                generation.proposals.iter().filter(|arm| gmab.get_arm_index(arm) == -1).count();
            let arms = gmab.arm_memory().len();
            let calls = gmab.opti_function().calls();
            let next = gmab.evaluate_generation(&generation, used, budget);
            assert_eq!(next, budget.min(used + wanted + 6));
            assert_eq!(gmab.opti_function().calls(), calls + next - used);
            if next < budget {
                assert_eq!(gmab.arm_memory().len(), arms + unknown);
            } else {
                assert!(gmab.arm_memory().len() <= arms + unknown);
            }
            assert!(consistent(&gmab));
            used = next;
        }
    }
}

#[test]
fn evaluate_generation_evaluates_in_order() {
    let mut gmab = scenario(weighted);
    let first = gmab.arm_memory()[3].get_action_vector().to_vec();
    let second = gmab.arm_memory()[7].get_action_vector().to_vec();
    let new = unknown_vectors(&gmab, 5);
    gmab.sample_and_update(-1, Arm::new(&new[0]));
    let generation = Generation {
        current_indexes: vec![3, 7],
        population: vec![Arm::new(&second), Arm::new(&first)],
        proposals: vec![
            Arm::new(&first),
            Arm::new(&new[1]),
            Arm::new(&new[0]),
            Arm::new(&second),
            Arm::new(&new[2]),
        ],
    };
    assert_eq!(gmab.evaluate_generation(&generation, 0, 100), 5);
    let asked: Vec<Vec<i32>> = gmab.opti_function().asked.borrow()[11..].to_vec();
    assert_eq!(
        asked,
        vec![new[1].clone(), new[0].clone(), new[2].clone(), second.clone(), first.clone()]
    );
    assert_eq!(gmab.arm_memory().len(), 13);
    assert_eq!(gmab.get_arm_index(&Arm::new(&new[1])), 11);
    assert_eq!(gmab.get_arm_index(&Arm::new(&new[2])), 12);
    assert_eq!(gmab.arm_memory()[10].get_num_pulls(), 2);
    assert_eq!(gmab.arm_memory()[3].get_num_pulls(), 2);
    assert_eq!(gmab.arm_memory()[7].get_num_pulls(), 2);
    assert_eq!(gmab.arm_memory()[0].get_num_pulls(), 1);
    assert!(consistent(&gmab));

    // With a budget of two more the generation ends behind the second evaluation.
    let generation = Generation {
        current_indexes: vec![3, 7],
        population: vec![Arm::new(&second), Arm::new(&first)],
        proposals: vec![Arm::new(&new[3]), Arm::new(&first), Arm::new(&new[4])],
    };
    assert_eq!(gmab.evaluate_generation(&generation, 5, 7), 7);
    let asked: Vec<Vec<i32>> = gmab.opti_function().asked.borrow()[16..].to_vec();
    assert_eq!(asked, vec![new[3].clone(), new[4].clone()]);
    assert_eq!(gmab.arm_memory().len(), 15);
}

#[test]
fn contains_index_and_copy_vector() {
    assert!(contains_index(&vec![4, -1, 7], -1));
    assert!(!contains_index(&vec![4, -1, 7], 5));
    assert!(!contains_index(&vec![], 0));
    assert_eq!(copy_vector(&[3, 1, 2]), vec![3, 1, 2]);
    assert_eq!(copy_vector(&[]), Vec::<i32>::new());
}
