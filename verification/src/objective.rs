//! Objective functions: gradients, hessians, initial scores and predictions.

use vstd::prelude::*;

use crate::double::{Double, Single};
use crate::text::same_text;
use crate::utils::parallel_map;

verus! {

/// The weight of a row: one where no weights are given.
pub open spec fn weight_of(weights: Option<&[Double]>, row: int) -> Double {
    match weights {
        Some(w) => w@[row],
        None => Double::one_spec(),
    }
}

/// The contents of weights.
pub open spec fn weights_view(weights: Option<&[Double]>) -> Option<Seq<Double>> {
    match weights {
        Some(w) => Some(w@),
        None => None,
    }
}

/// Holds of whatever a method may return for its arguments, as long as nothing is said of it.
spec fn left_open<A, R>(arguments: A, result: R) -> bool {
    true
}

/// Objective function for gradient boosting: computes per-row gradients and hessians. What
/// each method returns depends on nothing but its arguments; an objective may leave open what
/// that is.
pub trait Objective: Send + Sync {
    /// What `lgbm_name` returns.
    closed spec fn name_spec(&self) -> Seq<char> {
        choose|name: Seq<char>| left_open(self, name)
    }

    /// What `grad_hess` returns.
    closed spec fn grad_hess_spec(&self, label: Double, score: Double, weight: Double) -> [Single; 2] {
        choose|gh: [Single; 2]| left_open((self, label, score, weight), gh)
    }

    /// What `initial_score` returns.
    closed spec fn initial_score_spec(&self, labels: Seq<Double>, weights: Option<Seq<Double>>) -> Double {
        choose|score: Double| left_open((self, labels, weights), score)
    }

    /// What `prediction` returns.
    closed spec fn prediction_spec(&self, score: Double) -> Double {
        choose|prediction: Double| left_open((self, score), prediction)
    }

    /// The name of the objective in model files.
    fn lgbm_name(&self) -> (name: &str)
        ensures
            name@ == self.name_spec(),
    ;

    /// Per-row gradient and hessian.
    fn grad_hess(&self, label: Double, score: Double, weight: Double) -> (gh: [Single; 2])
        ensures
            gh == self.grad_hess_spec(label, score, weight),
    ;

    /// The score that boosting starts from.
    fn initial_score(&self, labels: &[Double], weights: Option<&[Double]>) -> (score: Double)
        ensures
            score == self.initial_score_spec(labels@, weights_view(weights)),
    ;

    /// What is predicted for a score.
    fn prediction(&self, score: Double) -> (prediction: Double)
        ensures
            prediction == self.prediction_spec(score),
    ;

    /// The gradients and hessians of all rows of `out`. With a pool, each row is a task of
    /// its own.
    fn gradient_hessian(
        &self,
        labels: &[Double],
        scores: &[Double],
        weights: Option<&[Double]>,
        out: &mut [[Single; 2]],
        pool: Option<&rayon::ThreadPool>,
    )
        requires
            old(out)@.len() <= labels@.len(),
            old(out)@.len() <= scores@.len(),
            weights matches Some(w) ==> old(out)@.len() <= w@.len(),
        ensures
            final(out)@.len() == old(out)@.len(),
            forall|i: int|
                0 <= i < final(out)@.len() ==> #[trigger] final(out)@[i] == self.grad_hess_spec(
                    labels@[i],
                    scores@[i],
                    weight_of(weights, i),
                ),
    {
        let n = out.len();
        match pool {
            Some(pool) => {
                let f = |i: usize| -> (gh: [Single; 2])
                    requires
                        i < labels@.len(),
                        i < scores@.len(),
                        weights matches Some(w) ==> i < w@.len(),
                    ensures
                        gh == self.grad_hess_spec(labels@[i as int], scores@[i as int], weight_of(weights, i as int)),
                {
                    let weight = match weights {
                        Some(w) => w[i],
                        None => Double::one(),
                    };
                    self.grad_hess(labels[i], scores[i], weight)
                };
                let all = parallel_map(pool, n, f);
                for i in 0..n
                    invariant
                        n == out@.len(),
                        all@.len() == n,
                        forall|k: int|
                            0 <= k < n ==> #[trigger] all@[k] == self.grad_hess_spec(
                                labels@[k],
                                scores@[k],
                                weight_of(weights, k),
                            ),
                        forall|k: int|
                            0 <= k < i ==> #[trigger] out@[k] == self.grad_hess_spec(
                                labels@[k],
                                scores@[k],
                                weight_of(weights, k),
                            ),
                {
                    out[i] = all[i];
                }
            },
            None => {
                for i in 0..n
                    invariant
                        n == out@.len(),
                        n <= labels@.len(),
                        n <= scores@.len(),
                        weights matches Some(w) ==> n <= w@.len(),
                        forall|k: int|
                            0 <= k < i ==> #[trigger] out@[k] == self.grad_hess_spec(
                                labels@[k],
                                scores@[k],
                                weight_of(weights, k),
                            ),
                {
                    let weight = match weights {
                        Some(w) => w[i],
                        None => Double::one(),
                    };
                    out[i] = self.grad_hess(labels[i], scores[i], weight);
                }
            },
        }
    }
}

/// The sum of the first `n` labels, added in their order.
pub open spec fn label_sum(labels: Seq<Double>, n: nat) -> Double
    decreases n,
{
    if n <= 1 {
        labels[0]
    } else {
        label_sum(labels, (n - 1) as nat).plus_spec(labels[n - 1])
    }
}

/// The sums of weighted labels and of weights over the first `n` rows, added in their order.
pub open spec fn weighted_sums(labels: Seq<Double>, weights: Seq<Double>, n: nat) -> (Double, Double)
    decreases n,
{
    if n == 0 {
        (Double::zero_spec(), Double::zero_spec())
    } else {
        let (labelled, weight) = weighted_sums(labels, weights, (n - 1) as nat);
        (labelled.plus_spec(weights[n - 1].times_spec(labels[n - 1])), weight.plus_spec(weights[n - 1]))
    }
}

/// The mean label, weighted if weights are given; `fallback` where the weights sum up to
/// nothing positive.
pub open spec fn mean_label(labels: Seq<Double>, weights: Option<Seq<Double>>, fallback: Double) -> Double {
    match weights {
        Some(w) => {
            let n = if labels.len() <= w.len() { labels.len() } else { w.len() };
            let (labelled, weight) = weighted_sums(labels, w, n);
            if Double::zero_spec().lt_spec(weight) { labelled.over_spec(weight) } else { fallback }
        },
        None => label_sum(labels, labels.len()).over_spec(Double::from_count_spec(labels.len())),
    }
}

/// The mean label.
fn mean(labels: &[Double], weights: Option<&[Double]>, fallback: Double) -> (r: Double)
    requires
        labels@.len() > 0,
    ensures
        r == mean_label(labels@, weights_view(weights), fallback),
{
    match weights {
        Some(w) => {
            let n = if labels.len() <= w.len() { labels.len() } else { w.len() };
            let mut labelled = Double::zero();
            let mut weight = Double::zero();
            for i in 0..n
                invariant
                    n <= labels@.len(),
                    n <= w@.len(),
                    (labelled, weight) == weighted_sums(labels@, w@, i as nat),
            {
                labelled = labelled.plus(w[i].times(labels[i]));
                weight = weight.plus(w[i]);
            }
            if Double::zero().lt(weight) { labelled.over(weight) } else { fallback }
        },
        None => {
            let n = labels.len();
            let mut sum = labels[0];
            for i in 1..n
                invariant
                    n == labels@.len(),
                    sum == label_sum(labels@, i as nat),
            {
                sum = sum.plus(labels[i]);
            }
            sum.over(Double::from_count(n))
        },
    }
}

/// Squared error. Scores are predictions.
pub struct Gaussian;

impl Objective for Gaussian {
    open spec fn name_spec(&self) -> Seq<char> {
        "regression"@
    }

    /// The residual and one, both times the weight.
    open spec fn grad_hess_spec(&self, label: Double, score: Double, weight: Double) -> [Single; 2] {
        [score.minus_spec(label).times_spec(weight).narrow_spec(), weight.narrow_spec()]
    }

    /// The mean label.
    open spec fn initial_score_spec(&self, labels: Seq<Double>, weights: Option<Seq<Double>>) -> Double {
        if labels.len() == 0 { Double::zero_spec() } else { mean_label(labels, weights, Double::zero_spec()) }
    }

    open spec fn prediction_spec(&self, score: Double) -> Double {
        score
    }

    fn lgbm_name(&self) -> (name: &str) {
        "regression"
    }

    fn grad_hess(&self, label: Double, score: Double, weight: Double) -> (gh: [Single; 2]) {
        [score.minus(label).times(weight).narrow(), weight.narrow()]
    }

    fn initial_score(&self, labels: &[Double], weights: Option<&[Double]>) -> (score: Double) {
        if labels.len() == 0 { Double::zero() } else { mean(labels, weights, Double::zero()) }
    }

    fn prediction(&self, score: Double) -> (prediction: Double) {
        score
    }
}

/// The bits of 0.5.
pub const HALF_BITS: u64 = 0x3FE0_0000_0000_0000;

/// The bits of 1e-7, the least probability that a label is given.
pub const LOW_BITS: u64 = 0x3E7A_D7F2_9ABC_AF48;

/// The bits of 1 - 1e-7, the greatest probability that a label is given.
pub const HIGH_BITS: u64 = 0x3FEF_FFFF_CA50_1ACB;

/// The bits of 1e-16, the least hessian of a row.
pub const TINY_BITS: u64 = 0x3C9C_D2B2_97D8_89BC;

/// A probability kept away from zero and one.
pub open spec fn safe_probability(p: Double) -> Double {
    p.clamp_spec(Double { bits: LOW_BITS }, Double { bits: HIGH_BITS })
}

fn keep_safe(p: Double) -> (r: Double)
    ensures
        r == safe_probability(p),
{
    p.clamp(Double { bits: LOW_BITS }, Double { bits: HIGH_BITS })
}

/// Binary cross-entropy. Scores are log-odds; labels are in {0, 1}. The exponential and the
/// logarithm are left to the caller.
pub struct Logistic;

impl Logistic {
    pub open spec fn probability_spec(exp_neg_score: Double) -> Double {
        Double::one_spec().over_spec(Double::one_spec().plus_spec(exp_neg_score))
    }

    /// The probability at a score, given the exponential of the score's negative.
    pub fn probability(exp_neg_score: Double) -> (p: Double)
        ensures
            p == Self::probability_spec(exp_neg_score),
    {
        Double::one().over(Double::one().plus(exp_neg_score))
    }

    /// The gradient `p - label` and the hessian `p (1 - p)`, which is kept positive, both
    /// times the weight.
    pub fn grad_hess(p: Double, label: Double, weight: Double) -> (gh: [Single; 2])
        ensures
            gh == [
                p.minus_spec(label).times_spec(weight).narrow_spec(),
                p.times_spec(Double::one_spec().minus_spec(p)).max_spec(Double { bits: TINY_BITS }).times_spec(
                    weight,
                ).narrow_spec(),
            ],
    {
        [
            p.minus(label).times(weight).narrow(),
            p.times(Double::one().minus(p)).max(Double { bits: TINY_BITS }).times(weight).narrow(),
        ]
    }

    /// The odds of a probability.
    pub open spec fn odds_spec(p: Double) -> Double {
        p.over_spec(Double::one_spec().minus_spec(p))
    }

    /// The odds of the mean label, whose logarithm is the initial score. Without labels there
    /// are none, and the initial score is zero.
    pub fn initial_odds(labels: &[Double], weights: Option<&[Double]>) -> (odds: Option<Double>)
        ensures
            labels@.len() == 0 <==> odds is None,
            odds matches Some(x) ==> x == Self::odds_spec(
                safe_probability(mean_label(labels@, weights_view(weights), Double { bits: HALF_BITS })),
            ),
    {
        if labels.len() == 0 {
            None
        } else {
            let p = keep_safe(mean(labels, weights, Double { bits: HALF_BITS }));
            Some(p.over(Double::one().minus(p)))
        }
    }
}

/// The bits of the square root of one half.
pub const SQRT_HALF_BITS: u64 = 0x3FE6_A09E_667F_3BCD;

/// The bits of the square root of two pi.
pub const SQRT_TWO_PI_BITS: u64 = 0x4004_0D93_1FF6_2705;

/// The bits of -0.5.
pub const MINUS_HALF_BITS: u64 = 0xBFE0_0000_0000_0000;

/// Probit loss. Scores are on the latent normal scale, labels are in {0, 1}. The complementary
/// error function and the exponential are left to the caller. Scores start at zero.
pub struct Probit;

impl Probit {
    /// Where the complementary error function is needed for the normal distribution at `x`.
    pub fn cdf_argument(x: Double) -> (r: Double)
        ensures
            r == x.neg_spec().times_spec(Double { bits: SQRT_HALF_BITS }),
    {
        x.neg().times(Double { bits: SQRT_HALF_BITS })
    }

    /// The normal distribution, given the complementary error function there.
    pub fn cdf(erfc: Double) -> (r: Double)
        ensures
            r == (Double { bits: HALF_BITS }).times_spec(erfc),
    {
        Double { bits: HALF_BITS }.times(erfc)
    }

    /// Where the exponential is needed for the normal density at `x`.
    pub fn pdf_argument(x: Double) -> (r: Double)
        ensures
            r == (Double { bits: MINUS_HALF_BITS }).times_spec(x).times_spec(x),
    {
        Double { bits: MINUS_HALF_BITS }.times(x).times(x)
    }

    /// The normal density, given the exponential there.
    pub fn pdf(exp: Double) -> (r: Double)
        ensures
            r == exp.over_spec(Double { bits: SQRT_TWO_PI_BITS }),
    {
        exp.over(Double { bits: SQRT_TWO_PI_BITS })
    }

    /// The gradient and the hessian, given the normal distribution and density at the score.
    pub fn grad_hess(cdf: Double, pdf: Double, label: Double, weight: Double) -> (gh: [Single; 2])
        ensures
            ({
                let p = safe_probability(cdf);
                let v = p.times_spec(Double::one_spec().minus_spec(p));
                gh == [
                    pdf.times_spec(p.minus_spec(label)).over_spec(v).times_spec(weight).narrow_spec(),
                    pdf.times_spec(pdf).over_spec(v).times_spec(weight).max_spec(Double { bits: TINY_BITS }).narrow_spec(),
                ]
            }),
    {
        let p = keep_safe(cdf);
        let v = p.times(Double::one().minus(p));
        [
            pdf.times(p.minus(label)).over(v).times(weight).narrow(),
            pdf.times(pdf).over(v).times(weight).max(Double { bits: TINY_BITS }).narrow(),
        ]
    }
}

/// The bits of 1e30, the greatest rate used in gradients.
pub const GREATEST_RATE_BITS: u64 = 0x4629_3E59_39A0_8CEA;

/// The bits of 1e-10, the least mean rate.
pub const LEAST_RATE_BITS: u64 = 0x3DDB_7CDF_D9D7_BDBB;

/// Poisson regression. Scores are log-rates; labels are non-negative counts. The exponential
/// and the logarithm are left to the caller.
pub struct Poisson;

impl Poisson {
    /// The gradient and the hessian, given the exponential of the score.
    pub fn grad_hess(exp_score: Double, label: Double, weight: Double) -> (gh: [Single; 2])
        ensures
            ({
                let rate = exp_score.min_spec(Double { bits: GREATEST_RATE_BITS });
                gh == [
                    rate.minus_spec(label).times_spec(weight).narrow_spec(),
                    rate.times_spec(weight).max_spec(Double { bits: TINY_BITS }).narrow_spec(),
                ]
            }),
    {
        let rate = exp_score.min(Double { bits: GREATEST_RATE_BITS });
        [rate.minus(label).times(weight).narrow(), rate.times(weight).max(Double { bits: TINY_BITS }).narrow()]
    }

    /// The mean label, kept positive, whose logarithm is the initial score. Without labels
    /// there is none, and the initial score is zero.
    pub fn initial_rate(labels: &[Double], weights: Option<&[Double]>) -> (rate: Option<Double>)
        ensures
            labels@.len() == 0 <==> rate is None,
            rate matches Some(x) ==> x == mean_label(labels@, weights_view(weights), Double::zero_spec()).max_spec(
                Double { bits: LEAST_RATE_BITS },
            ),
    {
        if labels.len() == 0 {
            None
        } else {
            Some(mean(labels, weights, Double::zero()).max(Double { bits: LEAST_RATE_BITS }))
        }
    }
}

/// The objectives that can be asked for by name.
#[derive(Clone, Copy, Debug, PartialEq, Eq, Structural)]
pub enum ObjectiveKind {
    Gaussian,
    Logistic,
    Probit,
    Poisson,
}

impl ObjectiveKind {
    pub open spec fn from_name_spec(name: Seq<char>) -> Option<ObjectiveKind> {
        if name == "gaussian"@ {
            Some(ObjectiveKind::Gaussian)
        } else if name == "logistic"@ {
            Some(ObjectiveKind::Logistic)
        } else if name == "probit"@ {
            Some(ObjectiveKind::Probit)
        } else if name == "poisson"@ {
            Some(ObjectiveKind::Poisson)
        } else {
            None
        }
    }

    /// The objective of a name, if there is one.
    pub fn from_name(name: &str) -> (kind: Option<Self>)
        ensures
            kind == Self::from_name_spec(name@),
    {
        if same_text(name, "gaussian") {
            Some(ObjectiveKind::Gaussian)
        } else if same_text(name, "logistic") {
            Some(ObjectiveKind::Logistic)
        } else if same_text(name, "probit") {
            Some(ObjectiveKind::Probit)
        } else if same_text(name, "poisson") {
            Some(ObjectiveKind::Poisson)
        } else {
            None
        }
    }

    pub open spec fn lgbm_name_spec(self) -> Seq<char> {
        match self {
            ObjectiveKind::Gaussian => "regression"@,
            ObjectiveKind::Logistic => "binary"@,
            ObjectiveKind::Probit => "binary"@,
            ObjectiveKind::Poisson => "poisson"@,
        }
    }

    /// The name of the objective in model files.
    pub fn lgbm_name(self) -> (name: &'static str)
        ensures
            name@ == self.lgbm_name_spec(),
    {
        match self {
            ObjectiveKind::Gaussian => "regression",
            ObjectiveKind::Logistic => "binary",
            ObjectiveKind::Probit => "binary",
            ObjectiveKind::Poisson => "poisson",
        }
    }
}

/// Every row has its own weight, or one where there are none.
pub proof fn law_rows_have_their_own_weights(weights: Option<&[Double]>, row: int)
    ensures
        weights matches Some(w) ==> weight_of(weights, row) == w@[row] && weights_view(weights) == Some(w@),
        weights is None ==> weight_of(weights, row) == Double::one_spec() && weights_view(weights) is None,
{
}

/// Squared error predicts the score itself, and is named after regression.
pub proof fn law_gaussian_predicts_its_score(score: Double)
    ensures
        Gaussian.prediction_spec(score) == score,
        Gaussian.name_spec() == "regression"@,
{
}

/// Objectives are told apart by the names that they are asked for by, and each has its name in
/// model files.
pub proof fn law_objectives_have_their_names(name: Seq<char>)
    ensures
        ObjectiveKind::from_name_spec("gaussian"@) == Some(ObjectiveKind::Gaussian),
        ObjectiveKind::from_name_spec("logistic"@) == Some(ObjectiveKind::Logistic),
        ObjectiveKind::from_name_spec("probit"@) == Some(ObjectiveKind::Probit),
        ObjectiveKind::from_name_spec("poisson"@) == Some(ObjectiveKind::Poisson),
        ObjectiveKind::from_name_spec(name) is Some ==> name == "gaussian"@ || name == "logistic"@ || name == "probit"@ || name
            == "poisson"@,
        ObjectiveKind::Gaussian.lgbm_name_spec() == "regression"@,
        ObjectiveKind::Logistic.lgbm_name_spec() == "binary"@,
        ObjectiveKind::Probit.lgbm_name_spec() == "binary"@,
        ObjectiveKind::Poisson.lgbm_name_spec() == "poisson"@,
{
    reveal_strlit("gaussian");
    reveal_strlit("logistic");
    reveal_strlit("probit");
    reveal_strlit("poisson");
    assert("gaussian"@[0] != "logistic"@[0]);
    assert("gaussian"@[0] != "probit"@[0]);
    assert("gaussian"@[0] != "poisson"@[0]);
    assert("logistic"@[0] != "probit"@[0]);
    assert("logistic"@[0] != "poisson"@[0]);
    assert("probit"@[1] != "poisson"@[1]);
}

} // verus!
