//! Arms: candidate decision vectors with their running statistics, and the
//! two things the caller supplies for them.

use crate::float_key::FloatKey;
use rand::rngs::StdRng;
use vstd::prelude::*;

verus! {

/// The objective that is minimised.
pub trait OptimizationFn {
    /// One evaluation at the given point. The objective may be noisy: two
    /// evaluations at one point may differ, and nothing is assumed of the result.
    fn evaluate(&self, action_vector: &[i32]) -> FloatKey;
}

/// The floating-point arithmetic of the search.
///
/// This crate orders and compares rewards and leaves every sum, quotient,
/// logarithm and root to the caller. Nothing is assumed of what these methods
/// return; what the search guarantees, it guarantees for every outcome.
pub trait Numerics {
    /// The mean of an arm's rewards after one more sample: `mean` is the mean
    /// of the `num_pulls - 1` earlier samples, and zero where there is none.
    fn running_mean(&self, mean: FloatKey, sample: FloatKey, num_pulls: i32) -> FloatKey
        requires
            num_pulls >= 1,
            num_pulls == 1 ==> mean@ == 0,
    ;

    /// The score of an arm in the final choice, from its mean, the least and
    /// the greatest mean of the arms compared, the number of evaluations spent
    /// and the number of the arm's pulls. `None` stands for a score that is
    /// not a number, which never wins.
    ///
    /// The two means handed over differ, the arm's mean lies between them, and
    /// the arm was pulled.
    fn confidence_bound(
        &self,
        mean: FloatKey,
        min_mean: FloatKey,
        max_mean: FloatKey,
        simulations_used: usize,
        num_pulls: i32,
    ) -> Option<FloatKey>
        requires
            min_mean@ < max_mean@,
            min_mean@ <= mean@ <= max_mean@,
            num_pulls >= 1,
    ;

    /// A random amount by which to move a coordinate whose bounds are `lower`
    /// and `upper`, rounded to an integer.
    fn mutation_step(&self, rng: &mut StdRng, lower: i32, upper: i32) -> i64
        requires
            lower <= upper,
    ;
}

/// The sample is one that an evaluation of the objective at the vector gave:
/// it stands to the objective and the vector as a result of `evaluate` does
/// to what the call was made with.
pub open spec fn is_evaluation<F: OptimizationFn>(
    opti_function: &F,
    action_vector: Seq<i32>,
    sample: FloatKey,
) -> bool {
    exists|v: &[i32]|
        v@ == action_vector && #[trigger] call_ensures(F::evaluate, (opti_function, v), sample)
}

/// What one pull makes of an arm: the vector stays, the pulls go up by one,
/// the sample is one that an evaluation of the objective at the arm's vector
/// gave, and the new mean is what `running_mean` gave for the mean before,
/// that sample and the new number of pulls. The mean before is zero where
/// the arm was not pulled before.
pub open spec fn is_pull<F: OptimizationFn, N: Numerics>(
    opti_function: &F,
    numerics: &N,
    before: ArmView,
    sample: FloatKey,
    after: ArmView,
) -> bool {
    &&& after.action_vector == before.action_vector
    &&& after.num_pulls == before.num_pulls + 1
    &&& before.num_pulls == 0 ==> before.mean_reward@ == 0
    &&& is_evaluation(opti_function, before.action_vector, sample)
    &&& call_ensures(
        N::running_mean,
        (numerics, before.mean_reward, sample, (before.num_pulls + 1) as i32),
        after.mean_reward,
    )
}

/// The later arm is what one pull made of the earlier one, for some sample.
pub open spec fn is_pulled<F: OptimizationFn, N: Numerics>(
    opti_function: &F,
    numerics: &N,
    before: ArmView,
    after: ArmView,
) -> bool {
    exists|sample: FloatKey| #[trigger] is_pull(opti_function, numerics, before, sample, after)
}

/// The arm is what one pull made of an unpulled arm with the same vector.
pub open spec fn is_first_pull<F: OptimizationFn, N: Numerics>(
    opti_function: &F,
    numerics: &N,
    arm: ArmView,
) -> bool {
    exists|fresh: ArmView|
        {
            &&& fresh.num_pulls == 0
            &&& fresh.mean_reward@ == 0
            &&& #[trigger] is_pulled(opti_function, numerics, fresh, arm)
        }
}

/// The later arm is what `times` pulls, one after the other, made of the
/// earlier one.
pub open spec fn is_pulled_times<F: OptimizationFn, N: Numerics>(
    opti_function: &F,
    numerics: &N,
    before: ArmView,
    after: ArmView,
    times: nat,
) -> bool
    decreases times,
{
    if times == 0 {
        after == before
    } else {
        exists|middle: ArmView|
            is_pulled_times(opti_function, numerics, before, middle, (times - 1) as nat)
                && #[trigger] is_pulled(opti_function, numerics, middle, after)
    }
}

/// The arm is what its pulls made of an unpulled arm: each of its pulls was
/// one evaluation of the objective at its vector, folded into its mean.
pub open spec fn is_made<F: OptimizationFn, N: Numerics>(
    opti_function: &F,
    numerics: &N,
    arm: ArmView,
) -> bool {
    exists|fresh: ArmView|
        fresh.num_pulls == 0 && arm.num_pulls >= 0 && #[trigger] is_pulled_times(
            opti_function,
            numerics,
            fresh,
            arm,
            arm.num_pulls as nat,
        )
}

/// One pull is pulls, one of them.
pub proof fn lemma_pulled_once<F: OptimizationFn, N: Numerics>(
    opti_function: &F,
    numerics: &N,
    before: ArmView,
    after: ArmView,
)
    requires
        is_pulled(opti_function, numerics, before, after),
    ensures
        is_pulled_times(opti_function, numerics, before, after, 1),
        before.num_pulls == 0 ==> is_made(opti_function, numerics, after),
{
    assert(is_pulled_times(opti_function, numerics, before, before, 0));
    assert(is_pulled_times(opti_function, numerics, before, after, 1));
    let sample = choose|sample: FloatKey| #[trigger]
        is_pull(opti_function, numerics, before, sample, after);
    assert(after.num_pulls == before.num_pulls + 1);
    if before.num_pulls == 0 {
        assert(is_pulled_times(opti_function, numerics, before, after, after.num_pulls as nat));
    }
}

/// Pulls after pulls are pulls: as many as both runs together.
pub proof fn lemma_pulled_times_chain<F: OptimizationFn, N: Numerics>(
    opti_function: &F,
    numerics: &N,
    first: ArmView,
    middle: ArmView,
    last: ArmView,
    earlier: nat,
    later: nat,
)
    requires
        is_pulled_times(opti_function, numerics, first, middle, earlier),
        is_pulled_times(opti_function, numerics, middle, last, later),
    ensures
        is_pulled_times(opti_function, numerics, first, last, earlier + later),
    decreases later,
{
    if later > 0 {
        let between = choose|between: ArmView|
            is_pulled_times(opti_function, numerics, middle, between, (later - 1) as nat)
                && #[trigger] is_pulled(opti_function, numerics, between, last);
        lemma_pulled_times_chain(
            opti_function,
            numerics,
            first,
            middle,
            between,
            earlier,
            (later - 1) as nat,
        );
        assert(is_pulled(opti_function, numerics, between, last));
    }
}

/// What an arm is, to contracts.
pub struct ArmView {
    /// The candidate, which never changes.
    pub action_vector: Seq<i32>,
    /// The mean of the rewards of all pulls; the key of zero before the first.
    pub mean_reward: FloatKey,
    /// The number of pulls.
    pub num_pulls: int,
}

/// A candidate decision vector with its running statistics.
pub struct Arm {
    action_vector: Vec<i32>,
    mean_reward: FloatKey,
    num_pulls: i32,
}

impl View for Arm {
    type V = ArmView;

    closed spec fn view(&self) -> ArmView {
        ArmView {
            action_vector: self.action_vector@,
            mean_reward: self.mean_reward,
            num_pulls: self.num_pulls as int,
        }
    }
}

impl Clone for Arm {
    fn clone(&self) -> (r: Arm)
        ensures
            r@ == self@,
    {
        proof {
            use_type_invariant(self);
        }
        let action_vector: Vec<i32> = self.action_vector.clone();
        Arm { action_vector, mean_reward: self.mean_reward, num_pulls: self.num_pulls }
    }
}

/// Whether two vectors hold the same coordinates.
pub fn same_vector(a: &[i32], b: &[i32]) -> (r: bool)
    ensures
        r == (a@ == b@),
{
    if a.len() != b.len() {
        return false;
    }
    let mut i: usize = 0;
    while i < a.len()
        invariant
            a@.len() == b@.len(),
            i <= a@.len(),
            forall|j: int| 0 <= j < i ==> a@[j] == b@[j],
        decreases a@.len() - i,
    {
        if a[i] != b[i] {
            return false;
        }
        i = i + 1;
    }
    assert(a@ =~= b@);
    true
}

impl Arm {
    #[verifier::type_invariant]
    spec fn statistics_consistent(self) -> bool {
        &&& self.num_pulls >= 0
        &&& self.num_pulls == 0 ==> self.mean_reward@ == 0
    }

    /// A candidate that was never pulled: no pulls, mean zero.
    pub fn new(action_vector: &[i32]) -> (r: Arm)
        ensures
            r@ == (ArmView {
                action_vector: action_vector@,
                mean_reward: r@.mean_reward,
                num_pulls: 0,
            }),
            r@.mean_reward@ == 0,
    {
        let mut copy: Vec<i32> = Vec::new();
        let mut i: usize = 0;
        while i < action_vector.len()
            invariant
                i <= action_vector@.len(),
                copy@ == action_vector@.take(i as int),
            decreases action_vector@.len() - i,
        {
            copy.push(action_vector[i]);
            i = i + 1;
        }
        assert(copy@ =~= action_vector@);
        Arm { action_vector: copy, mean_reward: FloatKey::zero(), num_pulls: 0 }
    }

    /// Counts one pull whose outcome brought the mean to `mean_reward`.
    pub fn record(&mut self, mean_reward: FloatKey)
        requires
            old(self)@.num_pulls < i32::MAX,
        ensures
            final(self)@ == (ArmView {
                action_vector: old(self)@.action_vector,
                mean_reward,
                num_pulls: old(self)@.num_pulls + 1,
            }),
    {
        proof {
            use_type_invariant(&*self);
        }
        self.num_pulls = self.num_pulls + 1;
        self.mean_reward = mean_reward;
    }

    /// Evaluates the objective once at this arm's vector and folds the sample
    /// into the mean. Returns the sample.
    ///
    /// The vector stays and the pulls go up by one, whatever the objective and
    /// the arithmetic return; the sample is what the one evaluation gave, and
    /// the new mean is what `running_mean` made of the old mean and the sample.
    pub fn pull<F: OptimizationFn, N: Numerics>(&mut self, opti_function: &F, numerics: &N) -> (sample:
        FloatKey)
        requires
            old(self)@.num_pulls < i32::MAX,
        ensures
            is_pull(opti_function, numerics, old(self)@, sample, final(self)@),
    {
        proof {
            use_type_invariant(&*self);
        }
        let action_vector: &[i32] = self.action_vector.as_slice();
        let sample: FloatKey = opti_function.evaluate(action_vector);
        proof {
            assert(call_ensures(F::evaluate, (opti_function, action_vector), sample));
        }
        let mean: FloatKey = numerics.running_mean(self.mean_reward, sample, self.num_pulls + 1);
        self.record(mean);
        sample
    }

    /// Evaluates the objective once at this arm's vector and leaves the
    /// statistics as they are. The result is what that one evaluation gave.
    pub fn get_function_value<F: OptimizationFn>(&self, opti_function: &F) -> (sample: FloatKey)
        ensures
            is_evaluation(opti_function, self@.action_vector, sample),
    {
        let action_vector: &[i32] = self.action_vector.as_slice();
        let sample: FloatKey = opti_function.evaluate(action_vector);
        proof {
            assert(call_ensures(F::evaluate, (opti_function, action_vector), sample));
        }
        sample
    }

    /// The number of pulls.
    pub fn get_num_pulls(&self) -> (n: i32)
        ensures
            n == self@.num_pulls,
            n >= 0,
    {
        proof {
            use_type_invariant(self);
        }
        self.num_pulls
    }

    /// The candidate.
    pub fn get_action_vector(&self) -> (v: &[i32])
        ensures
            v@ == self@.action_vector,
    {
        self.action_vector.as_slice()
    }

    /// The mean of the rewards of all pulls; the key of zero before the first.
    pub fn get_mean_reward(&self) -> (mean: FloatKey)
        ensures
            mean == self@.mean_reward,
            self@.num_pulls == 0 ==> mean@ == 0,
    {
        proof {
            use_type_invariant(self);
        }
        self.mean_reward
    }
}

} // verus!
