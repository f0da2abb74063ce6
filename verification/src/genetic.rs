//! The genetic proposer: a random first population, one-point crossover of
//! neighbours, and mutation with removal of duplicates.

use crate::arm::{same_vector, Arm, Numerics};
use crate::random::{bernoulli_trial, uniform_inclusive};
use rand::distributions::Bernoulli;
use rand::rngs::StdRng;
use vstd::prelude::*;

verus! {

/// Why a configuration is refused.
#[derive(Clone, Copy, Debug, PartialEq, Eq, Structural)]
pub enum ConfigError {
    /// The population size is zero.
    EmptyPopulation,
    /// The population size is above what an arm index can count.
    PopulationTooLarge,
    /// The dimension is zero.
    ZeroDimension,
    /// A bound vector is not as long as the dimension says.
    DimensionMismatch,
    /// Some lower bound is above its upper bound.
    InvertedBounds,
}

/// The first reason to refuse a configuration, or none.
pub open spec fn config_error(
    population_size: usize,
    dimension: usize,
    lower_bound: Seq<i32>,
    upper_bound: Seq<i32>,
) -> Option<ConfigError> {
    if population_size == 0 {
        Some(ConfigError::EmptyPopulation)
    } else if population_size > i32::MAX {
        Some(ConfigError::PopulationTooLarge)
    } else if dimension == 0 {
        Some(ConfigError::ZeroDimension)
    } else if lower_bound.len() != dimension || upper_bound.len() != dimension {
        Some(ConfigError::DimensionMismatch)
    } else if exists|i: int| 0 <= i < dimension && lower_bound[i] > upper_bound[i] {
        Some(ConfigError::InvertedBounds)
    } else {
        None
    }
}

/// Every coordinate lies between its bounds, and there are as many
/// coordinates as bounds.
pub open spec fn within_bounds(v: Seq<i32>, lower_bound: Seq<i32>, upper_bound: Seq<i32>) -> bool {
    &&& v.len() == lower_bound.len()
    &&& forall|i: int| 0 <= i < v.len() ==> lower_bound[i] <= #[trigger] v[i] <= upper_bound[i]
}

/// The child of one-point crossover: the first parent up to the cut, the
/// second from the cut on.
pub open spec fn one_point(a: Seq<i32>, b: Seq<i32>, cut: int) -> Seq<i32> {
    a.take(cut) + b.skip(cut)
}

/// What crossover may make of two neighbours: themselves, or the two children
/// of one cut inside the vector.
pub open spec fn crossed_pair(
    a: Seq<i32>,
    b: Seq<i32>,
    first: Seq<i32>,
    second: Seq<i32>,
    dimension: int,
) -> bool {
    ||| first == a && second == b
    ||| exists|cut: int|
        1 <= cut < dimension && first == #[trigger] one_point(a, b, cut) && second == one_point(
            b,
            a,
            cut,
        )
}

/// The value moved by a step and brought back between the bounds.
pub open spec fn clamped(value: int, lower: int, upper: int) -> int {
    if value < lower {
        lower
    } else if value > upper {
        upper
    } else {
        value
    }
}

/// What mutation may make of a vector: each coordinate is as it was, or is
/// somewhere between its bounds.
pub open spec fn is_mutation(
    child: Seq<i32>,
    parent: Seq<i32>,
    lower_bound: Seq<i32>,
    upper_bound: Seq<i32>,
) -> bool {
    &&& child.len() == parent.len()
    &&& forall|i: int|
        0 <= i < child.len() ==> #[trigger] child[i] == parent[i] || lower_bound[i] <= child[i]
            <= upper_bound[i]
}

/// The vectors without their repetitions: of equal vectors the first stays.
pub open spec fn distinct(s: Seq<Seq<i32>>) -> Seq<Seq<i32>>
    decreases s.len(),
{
    if s.len() == 0 {
        Seq::empty()
    } else if distinct(s.drop_last()).contains(s.last()) {
        distinct(s.drop_last())
    } else {
        distinct(s.drop_last()).push(s.last())
    }
}

/// The action vectors of a population, in its order.
pub open spec fn vectors_of(population: Seq<Arm>) -> Seq<Seq<i32>> {
    population.map_values(|arm: Arm| arm@.action_vector)
}

/// Every arm of the population is unpulled.
pub open spec fn all_fresh(population: Seq<Arm>) -> bool {
    forall|i: int| 0 <= i < population.len() ==> (#[trigger] population[i])@.num_pulls == 0
}

/// Every arm of the population has a vector between the bounds.
pub open spec fn all_within_bounds(
    population: Seq<Arm>,
    lower_bound: Seq<i32>,
    upper_bound: Seq<i32>,
) -> bool {
    forall|i: int|
        0 <= i < population.len() ==> within_bounds(
            (#[trigger] population[i])@.action_vector,
            lower_bound,
            upper_bound,
        )
}

/// The pair at positions `2 * i` and `2 * i + 1` of `children` is a crossing
/// of the pair at those positions of `parents`.
pub open spec fn pair_crossed(parents: Seq<Arm>, children: Seq<Arm>, i: int, dimension: int) -> bool {
    crossed_pair(
        parents[2 * i]@.action_vector,
        parents[2 * i + 1]@.action_vector,
        children[2 * i]@.action_vector,
        children[2 * i + 1]@.action_vector,
        dimension,
    )
}

/// What crossover makes of a population: as many arms, all unpulled; each
/// pair of neighbours crossed or kept; a last arm without a neighbour kept.
pub open spec fn is_crossover(parents: Seq<Arm>, children: Seq<Arm>, dimension: int) -> bool {
    &&& children.len() == parents.len()
    &&& all_fresh(children)
    &&& forall|i: int|
        0 <= i && 2 * i + 1 < parents.len() ==> #[trigger] pair_crossed(
            parents,
            children,
            i,
            dimension,
        )
    &&& parents.len() % 2 == 1 ==> children.last()@.action_vector
        == parents.last()@.action_vector
}

/// What mutation makes of a population: each arm is mutated, then of equal
/// results only the first is kept. All that are kept are unpulled.
pub open spec fn is_mutated(
    parents: Seq<Arm>,
    children: Seq<Arm>,
    lower_bound: Seq<i32>,
    upper_bound: Seq<i32>,
) -> bool {
    &&& all_fresh(children)
    &&& exists|candidates: Seq<Seq<i32>>|
        {
            &&& candidates.len() == parents.len()
            &&& forall|i: int|
                0 <= i < parents.len() ==> is_mutation(
                    #[trigger] candidates[i],
                    parents[i]@.action_vector,
                    lower_bound,
                    upper_bound,
                )
            &&& vectors_of(children) == distinct(candidates)
        }
}

/// Keeping the first of equal vectors leaves no vector twice, loses none and
/// adds none.
pub proof fn lemma_distinct(s: Seq<Seq<i32>>)
    ensures
        distinct(s).no_duplicates(),
        distinct(s).len() <= s.len(),
        forall|v: Seq<i32>| distinct(s).contains(v) <==> s.contains(v),
    decreases s.len(),
{
    if s.len() > 0 {
        let front = s.drop_last();
        lemma_distinct(front);
        let d = distinct(front);
        assert forall|v: Seq<i32>| distinct(s).contains(v) <==> s.contains(v) by {
            if s.contains(v) {
                let i = choose|i: int| 0 <= i < s.len() && s[i] == v;
                if i < front.len() {
                    assert(front[i] == v);
                    assert(front.contains(v));
                    let j = choose|j: int| 0 <= j < d.len() && d[j] == v;
                    assert(distinct(s)[j] == v);
                } else if !d.contains(v) {
                    assert(distinct(s)[d.len() as int] == v);
                }
            }
            if distinct(s).contains(v) {
                let j = choose|j: int| 0 <= j < distinct(s).len() && distinct(s)[j] == v;
                if j < d.len() {
                    assert(front.contains(v));
                }
            }
        }
    }
}

/// A vector that lies between the bounds still does after mutation.
pub proof fn lemma_mutation_within_bounds(
    child: Seq<i32>,
    parent: Seq<i32>,
    lower_bound: Seq<i32>,
    upper_bound: Seq<i32>,
)
    requires
        is_mutation(child, parent, lower_bound, upper_bound),
        within_bounds(parent, lower_bound, upper_bound),
    ensures
        within_bounds(child, lower_bound, upper_bound),
{
}

/// The children of two vectors that lie between the bounds do so too.
pub proof fn lemma_crossed_within_bounds(
    a: Seq<i32>,
    b: Seq<i32>,
    first: Seq<i32>,
    second: Seq<i32>,
    lower_bound: Seq<i32>,
    upper_bound: Seq<i32>,
)
    requires
        crossed_pair(a, b, first, second, lower_bound.len() as int),
        within_bounds(a, lower_bound, upper_bound),
        within_bounds(b, lower_bound, upper_bound),
    ensures
        within_bounds(first, lower_bound, upper_bound),
        within_bounds(second, lower_bound, upper_bound),
{
}

/// The children of a population between the bounds lie between them too.
pub proof fn lemma_crossover_within_bounds(
    parents: Seq<Arm>,
    children: Seq<Arm>,
    lower_bound: Seq<i32>,
    upper_bound: Seq<i32>,
)
    requires
        is_crossover(parents, children, lower_bound.len() as int),
        all_within_bounds(parents, lower_bound, upper_bound),
    ensures
        all_within_bounds(children, lower_bound, upper_bound),
{
    assert forall|i: int| 0 <= i < children.len() implies within_bounds(
        (#[trigger] children[i])@.action_vector,
        lower_bound,
        upper_bound,
    ) by {
        let k = i / 2;
        if 2 * k + 1 < parents.len() {
            assert(pair_crossed(parents, children, k, lower_bound.len() as int));
            lemma_crossed_within_bounds(
                parents[2 * k]@.action_vector,
                parents[2 * k + 1]@.action_vector,
                children[2 * k]@.action_vector,
                children[2 * k + 1]@.action_vector,
                lower_bound,
                upper_bound,
            );
        }
    }
}

/// What mutation makes of a population between the bounds lies between them
/// too, and holds no vector twice.
pub proof fn lemma_mutated_within_bounds(
    parents: Seq<Arm>,
    children: Seq<Arm>,
    lower_bound: Seq<i32>,
    upper_bound: Seq<i32>,
)
    requires
        is_mutated(parents, children, lower_bound, upper_bound),
        all_within_bounds(parents, lower_bound, upper_bound),
    ensures
        all_within_bounds(children, lower_bound, upper_bound),
        vectors_of(children).no_duplicates(),
        children.len() <= parents.len(),
{
    let candidates = choose|candidates: Seq<Seq<i32>>|
        {
            &&& candidates.len() == parents.len()
            &&& forall|i: int|
                0 <= i < parents.len() ==> is_mutation(
                    #[trigger] candidates[i],
                    parents[i]@.action_vector,
                    lower_bound,
                    upper_bound,
                )
            &&& vectors_of(children) == distinct(candidates)
        };
    lemma_distinct(candidates);
    assert forall|i: int| 0 <= i < children.len() implies within_bounds(
        (#[trigger] children[i])@.action_vector,
        lower_bound,
        upper_bound,
    ) by {
        let v = children[i]@.action_vector;
        assert(vectors_of(children)[i] == v);
        assert(candidates.contains(v));
        let k = choose|k: int| 0 <= k < candidates.len() && candidates[k] == v;
        lemma_mutation_within_bounds(v, parents[k]@.action_vector, lower_bound, upper_bound);
    }
}

/// What a proposer is, to contracts.
pub struct GeneticView {
    /// The number of arms in a population.
    pub population_size: nat,
    /// The number of coordinates of a vector.
    pub dimension: nat,
    /// The least value of each coordinate.
    pub lower_bound: Seq<i32>,
    /// The greatest value of each coordinate.
    pub upper_bound: Seq<i32>,
    /// The chance that a gene mutates.
    pub mutation_rate: Bernoulli,
    /// The chance that a pair is crossed.
    pub crossover_rate: Bernoulli,
}

/// The genetic proposer and its configuration.
pub struct GeneticAlgorithm {
    population_size: usize,
    dimension: usize,
    lower_bound: Vec<i32>,
    upper_bound: Vec<i32>,
    mutation_rate: Bernoulli,
    crossover_rate: Bernoulli,
}

impl View for GeneticAlgorithm {
    type V = GeneticView;

    closed spec fn view(&self) -> GeneticView {
        GeneticView {
            population_size: self.population_size as nat,
            dimension: self.dimension as nat,
            lower_bound: self.lower_bound@,
            upper_bound: self.upper_bound@,
            mutation_rate: self.mutation_rate,
            crossover_rate: self.crossover_rate,
        }
    }
}

/// The vector that one-point crossover makes of two.
pub fn one_point_crossover(a: &[i32], b: &[i32], cut: usize) -> (child: Vec<i32>)
    requires
        cut <= a@.len(),
        cut <= b@.len(),
    ensures
        child@ == one_point(a@, b@, cut as int),
{
    let mut child: Vec<i32> = Vec::new();
    let mut i: usize = 0;
    while i < cut
        invariant
            i <= cut <= a@.len(),
            child@ == a@.take(i as int),
        decreases cut - i,
    {
        child.push(a[i]);
        i = i + 1;
    }
    while i < b.len()
        invariant
            cut <= i <= b@.len(),
            child@ == a@.take(cut as int) + b@.subrange(cut as int, i as int),
        decreases b@.len() - i,
    {
        child.push(b[i]);
        i = i + 1;
    }
    child
}

/// A coordinate moved by a step, then brought back between its bounds.
pub fn perturbed(value: i32, step: i64, lower: i32, upper: i32) -> (r: i32)
    requires
        lower <= upper,
    ensures
        r == clamped(value + step, lower as int, upper as int),
{
    let moved: i128 = value as i128 + step as i128;
    if moved < lower as i128 {
        lower
    } else if moved > upper as i128 {
        upper
    } else {
        moved as i32
    }
}

/// Whether one of the arms has this vector.
pub fn contains_vector(population: &Vec<Arm>, v: &[i32]) -> (r: bool)
    ensures
        r == vectors_of(population@).contains(v@),
{
    let mut i: usize = 0;
    while i < population.len()
        invariant
            i <= population@.len(),
            forall|j: int| 0 <= j < i ==> (#[trigger] population@[j])@.action_vector != v@,
        decreases population@.len() - i,
    {
        if same_vector(population[i].get_action_vector(), v) {
            proof {
                assert(vectors_of(population@)[i as int] == v@);
            }
            return true;
        }
        i = i + 1;
    }
    false
}

/// One unpulled arm for each of the vectors, without their repetitions: of
/// equal vectors the first stays.
pub fn distinct_arms(candidates: &Vec<Vec<i32>>) -> (r: Vec<Arm>)
    ensures
        vectors_of(r@) == distinct(candidates.deep_view()),
        all_fresh(r@),
{
    let mut r: Vec<Arm> = Vec::new();
    let mut i: usize = 0;
    while i < candidates.len()
        invariant
            i <= candidates@.len(),
            candidates.deep_view().len() == candidates@.len(),
            vectors_of(r@) == distinct(candidates.deep_view().take(i as int)),
            all_fresh(r@),
        decreases candidates@.len() - i,
    {
        let ghost prefix = candidates.deep_view().take(i as int);
        let ghost next = candidates.deep_view().take(i + 1);
        proof {
            assert(next.drop_last() =~= prefix);
            assert(next.last() == candidates@[i as int]@);
        }
        if !contains_vector(&r, candidates[i].as_slice()) {
            let arm: Arm = Arm::new(candidates[i].as_slice());
            r.push(arm);
        }
        i = i + 1;
    }
    proof {
        assert(candidates.deep_view().take(candidates@.len() as int) =~= candidates.deep_view());
    }
    r
}

impl GeneticAlgorithm {
    /// The configuration is one that `new` accepts.
    pub open spec fn wf(&self) -> bool {
        config_error(
            self@.population_size as usize,
            self@.dimension as usize,
            self@.lower_bound,
            self@.upper_bound,
        ) is None
    }

    /// A proposer for populations of `population_size` vectors of
    /// `dimension` coordinates, the coordinate `i` between `lower_bound[i]`
    /// and `upper_bound[i]`, both included. A gene mutates with the
    /// probability of `mutation_rate`, a pair is crossed with that of
    /// `crossover_rate`.
    pub fn new(
        population_size: usize,
        mutation_rate: Bernoulli,
        crossover_rate: Bernoulli,
        dimension: usize,
        lower_bound: Vec<i32>,
        upper_bound: Vec<i32>,
    ) -> (r: Result<GeneticAlgorithm, ConfigError>)
        ensures
            match r {
                Ok(g) => {
                    &&& config_error(population_size, dimension, lower_bound@, upper_bound@) is None
                    &&& g.wf()
                    &&& g@ == (GeneticView {
                        population_size: population_size as nat,
                        dimension: dimension as nat,
                        lower_bound: lower_bound@,
                        upper_bound: upper_bound@,
                        mutation_rate,
                        crossover_rate,
                    })
                },
                Err(e) => config_error(population_size, dimension, lower_bound@, upper_bound@)
                    == Some(e),
            },
    {
        if population_size == 0 {
            return Err(ConfigError::EmptyPopulation);
        }
        if population_size > i32::MAX as usize {
            return Err(ConfigError::PopulationTooLarge);
        }
        if dimension == 0 {
            return Err(ConfigError::ZeroDimension);
        }
        if lower_bound.len() != dimension || upper_bound.len() != dimension {
            return Err(ConfigError::DimensionMismatch);
        }
        let mut i: usize = 0;
        while i < dimension
            invariant
                0 < population_size <= i32::MAX,
                0 < dimension,
                i <= dimension,
                lower_bound@.len() == dimension,
                upper_bound@.len() == dimension,
                forall|j: int| 0 <= j < i ==> lower_bound@[j] <= upper_bound@[j],
            decreases dimension - i,
        {
            if lower_bound[i] > upper_bound[i] {
                return Err(ConfigError::InvertedBounds);
            }
            i = i + 1;
        }
        Ok(
            GeneticAlgorithm {
                population_size,
                dimension,
                lower_bound,
                upper_bound,
                mutation_rate,
                crossover_rate,
            },
        )
    }

    /// The number of arms in a population.
    pub fn population_size(&self) -> (n: usize)
        ensures
            n == self@.population_size,
    {
        self.population_size
    }

    /// The number of coordinates of a vector.
    pub fn dimension(&self) -> (n: usize)
        ensures
            n == self@.dimension,
    {
        self.dimension
    }

    /// The least value of each coordinate.
    pub fn lower_bound(&self) -> (v: &[i32])
        ensures
            v@ == self@.lower_bound,
    {
        self.lower_bound.as_slice()
    }

    /// The greatest value of each coordinate.
    pub fn upper_bound(&self) -> (v: &[i32])
        ensures
            v@ == self@.upper_bound,
    {
        self.upper_bound.as_slice()
    }

    /// Whether a vector has as many coordinates as the proposer has bounds,
    /// each between its bounds.
    pub fn admits(&self, action_vector: &[i32]) -> (r: bool)
        requires
            self.wf(),
        ensures
            r == within_bounds(action_vector@, self@.lower_bound, self@.upper_bound),
    {
        if action_vector.len() != self.dimension {
            return false;
        }
        let mut i: usize = 0;
        while i < self.dimension
            invariant
                self.wf(),
                action_vector@.len() == self.dimension,
                i <= self.dimension,
                forall|j: int|
                    0 <= j < i ==> self.lower_bound@[j] <= #[trigger] action_vector@[j]
                        <= self.upper_bound@[j],
            decreases self.dimension - i,
        {
            if action_vector[i] < self.lower_bound[i] || action_vector[i] > self.upper_bound[i] {
                return false;
            }
            i = i + 1;
        }
        true
    }

    /// A coordinate drawn uniformly between two bounds, both included.
    fn random_coordinate(rng: &mut StdRng, lower: i32, upper: i32) -> (r: i32)
        requires
            lower <= upper,
        ensures
            lower <= r <= upper,
    {
        let span: u64 = (upper as i64 - lower as i64) as u64;
        let draw: u64 = uniform_inclusive(rng, 0, span);
        (lower as i64 + draw as i64) as i32
    }

    /// A vector with each coordinate drawn uniformly between its bounds.
    fn random_vector(&self, rng: &mut StdRng) -> (v: Vec<i32>)
        requires
            self.wf(),
        ensures
            within_bounds(v@, self@.lower_bound, self@.upper_bound),
    {
        let mut v: Vec<i32> = Vec::new();
        let mut i: usize = 0;
        while i < self.dimension
            invariant
                self.wf(),
                i <= self.dimension,
                v@.len() == i,
                forall|j: int|
                    0 <= j < i ==> self.lower_bound@[j] <= #[trigger] v@[j] <= self.upper_bound@[j],
            decreases self.dimension - i,
        {
            let x: i32 = Self::random_coordinate(rng, self.lower_bound[i], self.upper_bound[i]);
            v.push(x);
            i = i + 1;
        }
        v
    }

    /// A first population: `population_size` unpulled arms, each coordinate
    /// of each drawn uniformly between its bounds. Two of them may be equal.
    pub fn generate_new_population(&self, rng: &mut StdRng) -> (population: Vec<Arm>)
        requires
            self.wf(),
        ensures
            population@.len() == self@.population_size,
            all_fresh(population@),
            all_within_bounds(population@, self@.lower_bound, self@.upper_bound),
    {
        let mut population: Vec<Arm> = Vec::new();
        let mut i: usize = 0;
        while i < self.population_size
            invariant
                self.wf(),
                i <= self.population_size,
                population@.len() == i,
                all_fresh(population@),
                all_within_bounds(population@, self@.lower_bound, self@.upper_bound),
            decreases self.population_size - i,
        {
            let v: Vec<i32> = self.random_vector(rng);
            let arm: Arm = Arm::new(v.as_slice());
            population.push(arm);
            i = i + 1;
        }
        population
    }

    /// Crosses the population pair by pair: the arms at positions 0 and 1,
    /// at 2 and 3, and so on. With the probability of the crossover rate a
    /// pair is cut at one random place inside the vector and the tails are
    /// exchanged; else both are kept. A last arm without a neighbour is kept.
    /// The result holds new, unpulled arms.
    pub fn crossover(&self, rng: &mut StdRng, population: &Vec<Arm>) -> (children: Vec<Arm>)
        requires
            self.wf(),
            forall|i: int|
                0 <= i < population@.len() ==> (#[trigger] population@[i])@.action_vector.len()
                    == self@.dimension,
        ensures
            is_crossover(population@, children@, self@.dimension as int),
    {
        let n: usize = population.len();
        let mut children: Vec<Arm> = Vec::new();
        let mut i: usize = 0;
        while i + 1 < n
            invariant
                self.wf(),
                n == population@.len(),
                i <= n,
                i % 2 == 0,
                children@.len() == i,
                all_fresh(children@),
                forall|k: int|
                    0 <= k < population@.len() ==> (#[trigger] population@[k])@.action_vector.len()
                        == self@.dimension,
                forall|k: int|
                    0 <= k && 2 * k + 1 < i ==> #[trigger] pair_crossed(
                        population@,
                        children@,
                        k,
                        self@.dimension as int,
                    ),
            decreases n - i,
        {
            let a: &[i32] = population[i].get_action_vector();
            let b: &[i32] = population[i + 1].get_action_vector();
            let ghost before = children@;
            let first: Arm;
            let second: Arm;
            if self.dimension >= 2 && bernoulli_trial(rng, &self.crossover_rate) {
                let last: u64 = (self.dimension - 1) as u64;
                let cut: usize = uniform_inclusive(rng, 1, last) as usize;
                let v: Vec<i32> = one_point_crossover(a, b, cut);
                let w: Vec<i32> = one_point_crossover(b, a, cut);
                first = Arm::new(v.as_slice());
                second = Arm::new(w.as_slice());
            } else {
                first = Arm::new(a);
                second = Arm::new(b);
            }
            children.push(first);
            children.push(second);
            proof {
                let d = self@.dimension as int;
                assert forall|k: int| 0 <= k && 2 * k + 1 < i + 2 implies #[trigger] pair_crossed(
                    population@,
                    children@,
                    k,
                    d,
                ) by {
                    if 2 * k + 1 < i {
                        assert(pair_crossed(population@, before, k, d));
                    }
                }
            }
            i = i + 2;
        }
        if i < n {
            let last: Arm = Arm::new(population[i].get_action_vector());
            let ghost before = children@;
            children.push(last);
            proof {
                let d = self@.dimension as int;
                assert forall|k: int|
                    0 <= k && 2 * k + 1 < population@.len() implies #[trigger] pair_crossed(
                    population@,
                    children@,
                    k,
                    d,
                ) by {
                    assert(pair_crossed(population@, before, k, d));
                }
            }
        }
        children
    }

    /// One vector mutated: each coordinate in turn is, with the probability
    /// of the mutation rate, moved by a random step and brought back between
    /// its bounds.
    fn mutated_vector<N: Numerics>(&self, rng: &mut StdRng, numerics: &N, parent: &[i32]) -> (child:
        Vec<i32>)
        requires
            self.wf(),
            parent@.len() == self@.dimension,
        ensures
            is_mutation(child@, parent@, self@.lower_bound, self@.upper_bound),
    {
        let mut child: Vec<i32> = Vec::new();
        let mut i: usize = 0;
        while i < self.dimension
            invariant
                self.wf(),
                parent@.len() == self.dimension,
                i <= self.dimension,
                child@.len() == i,
                forall|j: int|
                    0 <= j < i ==> #[trigger] child@[j] == parent@[j] || self.lower_bound@[j]
                        <= child@[j] <= self.upper_bound@[j],
            decreases self.dimension - i,
        {
            let mut gene: i32 = parent[i];
            if bernoulli_trial(rng, &self.mutation_rate) {
                let lower: i32 = self.lower_bound[i];
                let upper: i32 = self.upper_bound[i];
                let step: i64 = numerics.mutation_step(rng, lower, upper);
                gene = perturbed(gene, step, lower, upper);
            }
            child.push(gene);
            i = i + 1;
        }
        child
    }

    /// Mutates each arm of the population, then drops each result that equals
    /// an earlier one. The result holds new, unpulled arms, no two with one vector.
    pub fn mutate<N: Numerics>(&self, rng: &mut StdRng, numerics: &N, population: &Vec<Arm>) -> (children:
        Vec<Arm>)
        requires
            self.wf(),
            forall|i: int|
                0 <= i < population@.len() ==> (#[trigger] population@[i])@.action_vector.len()
                    == self@.dimension,
        ensures
            is_mutated(population@, children@, self@.lower_bound, self@.upper_bound),
    {
        let mut candidates: Vec<Vec<i32>> = Vec::new();
        let mut i: usize = 0;
        while i < population.len()
            invariant
                self.wf(),
                i <= population@.len(),
                candidates@.len() == i,
                forall|k: int|
                    0 <= k < population@.len() ==> (#[trigger] population@[k])@.action_vector.len()
                        == self@.dimension,
                forall|k: int|
                    0 <= k < i ==> is_mutation(
                        (#[trigger] candidates@[k])@,
                        population@[k]@.action_vector,
                        self@.lower_bound,
                        self@.upper_bound,
                    ),
            decreases population@.len() - i,
        {
            let child: Vec<i32> = self.mutated_vector(
                rng,
                numerics,
                population[i].get_action_vector(),
            );
            candidates.push(child);
            i = i + 1;
        }
        let children: Vec<Arm> = distinct_arms(&candidates);
        children
    }
}

} // verus!
