//! The optimizer: owns the search distribution (mean and per-dimension
//! scale), and advances it one generation at a time by sampling a
//! population, scoring it through the objective, shaping utilities, and
//! committing a utility-weighted natural-gradient update.

use vstd::prelude::*;
use crate::fixed::{
    SCALE, fits_i64, fx_add, fx_div_count, fx_mul, fx_mul_spec, ln_fx, ln_fx_spec, trunc_div,
    lemma_ln_fx_spec_lower, lemma_ln_fx_spec_one,
};
use crate::objective::{Evaluation, Objective};
use crate::utils::{
    NoiseSource, argsort, is_argsort, random_gaussian_vector, reorder_rows, reorder_seq, rows_view,
};
use crate::NesError;

verus! {

/// Largest accepted population size; keeps the utility-table arithmetic
/// inside the scalar range.
pub const MAX_POPULATION: usize = 1000000;

/// The unnormalized utility of rank `k` in a population of `n`:
/// ln(n/2 + 1) - ln(k + 1), floored at zero, in `SCALE` units.
pub open spec fn raw_utility(n: int, k: int) -> int {
    let l = ln_fx_spec(n * 32768 + 65536);
    let lk = ln_fx_spec((k + 1) * 65536);
    if l - lk >= 0 {
        l - lk
    } else {
        0
    }
}

/// Sum of the first `k` unnormalized utilities.
pub open spec fn raw_utility_sum(n: int, k: int) -> int
    decreases k,
{
    if k <= 0 {
        0
    } else {
        raw_utility_sum(n, k - 1) + raw_utility(n, k - 1)
    }
}

/// The normalized utility of rank `k`: its share of the total, less the
/// uniform share `1/n`, both rounded toward zero.
pub open spec fn utility_value(n: int, k: int) -> int {
    trunc_div(raw_utility(n, k) * (SCALE as int), raw_utility_sum(n, n)) - trunc_div(
        SCALE as int,
        n,
    )
}

/// Each unnormalized utility is at most the whole sum.
proof fn lemma_raw_sum_monotone(n: int, k1: int, k2: int)
    requires
        0 <= k1 <= k2,
    ensures
        raw_utility_sum(n, k1) <= raw_utility_sum(n, k2),
    decreases k2 - k1,
{
    if k2 > k1 {
        lemma_raw_sum_monotone(n, k1, k2 - 1);
    }
}

/// The utility normalizer is strictly positive: the best rank always gets
/// ln(n/2 + 1) > 0 of unnormalized utility.
pub proof fn lemma_raw_sum_positive(n: int)
    requires
        1 <= n <= MAX_POPULATION,
    ensures
        raw_utility_sum(n, n) >= 22713,
{
    lemma_ln_fx_spec_one();
    lemma_ln_fx_spec_lower(n * 32768 + 65536);
    assert(raw_utility(n, 0) >= 22713);
    assert(raw_utility_sum(n, 1) == raw_utility_sum(n, 0) + raw_utility(n, 0));
    lemma_raw_sum_monotone(n, 1, n);
}

/// One column of the utility-weighted dot with the noise matrix: the sum
/// over the population of `u[k] * noise[k][j]`, each product rescaled, with
/// any overflow reported as absence.
pub open spec fn dot_col(u: Seq<i64>, nz: Seq<Seq<i64>>, j: int, k: int) -> Option<int>
    decreases k,
{
    if k <= 0 {
        Option::Some(0)
    } else {
        match dot_col(u, nz, j, k - 1) {
            Option::None => Option::None,
            Option::Some(s) => {
                let t = fx_mul_spec(u[k - 1] as int, nz[k - 1][j] as int);
                if !fits_i64(t) {
                    Option::None
                } else if !fits_i64(s + t) {
                    Option::None
                } else {
                    Option::Some(s + t)
                }
            },
        }
    }
}

/// One column of the dot with the recentred squared noise: the sum over the
/// population of `u[k] * (noise[k][j]^2 - 1)`, rescaled, overflow reported
/// as absence.
pub open spec fn dot_sq_col(u: Seq<i64>, nz: Seq<Seq<i64>>, j: int, k: int) -> Option<int>
    decreases k,
{
    if k <= 0 {
        Option::Some(0)
    } else {
        match dot_sq_col(u, nz, j, k - 1) {
            Option::None => Option::None,
            Option::Some(s) => {
                let nsq = fx_mul_spec(nz[k - 1][j] as int, nz[k - 1][j] as int);
                if !fits_i64(nsq) {
                    Option::None
                } else {
                    let c = nsq - (SCALE as int);
                    let t = fx_mul_spec(u[k - 1] as int, c);
                    if !fits_i64(t) {
                        Option::None
                    } else if !fits_i64(s + t) {
                        Option::None
                    } else {
                        Option::Some(s + t)
                    }
                }
            },
        }
    }
}

/// The mean update for dimension `j`:
/// `mu[j] + sigma[j] * lr_mu * (u . noise_j) / n`, rounded at each step,
/// absent when any intermediate leaves the scalar range.
pub open spec fn mu_component(
    mu_j: int,
    sigma_j: int,
    lr_mu: int,
    u: Seq<i64>,
    nz: Seq<Seq<i64>>,
    n: int,
    j: int,
) -> Option<int> {
    match dot_col(u, nz, j, u.len() as int) {
        Option::None => Option::None,
        Option::Some(d) => {
            let a = fx_mul_spec(sigma_j, lr_mu);
            if !fits_i64(a) {
                Option::None
            } else {
                let b = fx_mul_spec(a, d);
                if !fits_i64(b) {
                    Option::None
                } else {
                    let delta = trunc_div(b, n);
                    if !fits_i64(mu_j + delta) {
                        Option::None
                    } else {
                        Option::Some(mu_j + delta)
                    }
                }
            }
        },
    }
}

/// The scale update for dimension `j`:
/// `sigma[j] + (lr_sigma / 2) * sigma[j] * (u . (noise_j^2 - 1)) / n`,
/// rounded at each step, absent when any intermediate leaves the range.
pub open spec fn sigma_component(
    sigma_j: int,
    lr_sigma: int,
    u: Seq<i64>,
    nz: Seq<Seq<i64>>,
    n: int,
    j: int,
) -> Option<int> {
    match dot_sq_col(u, nz, j, u.len() as int) {
        Option::None => Option::None,
        Option::Some(d) => {
            let h = trunc_div(lr_sigma, 2);
            let a = fx_mul_spec(h, sigma_j);
            if !fits_i64(a) {
                Option::None
            } else {
                let b = fx_mul_spec(a, d);
                if !fits_i64(b) {
                    Option::None
                } else {
                    let delta = trunc_div(b, n);
                    if !fits_i64(sigma_j + delta) {
                        Option::None
                    } else {
                        Option::Some(sigma_j + delta)
                    }
                }
            }
        },
    }
}

/// Every dimension of the committed update matches the component formulas.
pub open spec fn update_ok(
    mu: Seq<i64>,
    sigma: Seq<i64>,
    lr_mu: int,
    lr_sigma: int,
    n: int,
    u: Seq<i64>,
    nz: Seq<Seq<i64>>,
    mu2: Seq<i64>,
    sigma2: Seq<i64>,
) -> bool {
    &&& mu2.len() == mu.len()
    &&& sigma2.len() == mu.len()
    &&& forall|j: int|
        0 <= j < mu.len() ==> mu_component(mu[j] as int, sigma[j] as int, lr_mu, u, nz, n, j)
            == Option::Some((#[trigger] mu2[j]) as int)
    &&& forall|j: int|
        0 <= j < mu.len() ==> sigma_component(sigma[j] as int, lr_sigma, u, nz, n, j)
            == Option::Some((#[trigger] sigma2[j]) as int)
}

/// Every dimension of the update stays inside the scalar range.
pub open spec fn update_fits(
    mu: Seq<i64>,
    sigma: Seq<i64>,
    lr_mu: int,
    lr_sigma: int,
    n: int,
    u: Seq<i64>,
    nz: Seq<Seq<i64>>,
) -> bool {
    forall|j: int|
        0 <= j < mu.len() ==> (mu_component(mu[j] as int, sigma[j] as int, lr_mu, u, nz, n, j)
            is Some && sigma_component(sigma[j] as int, lr_sigma, u, nz, n, j) is Some)
}

/// A dimension whose mean or scale component leaves the scalar range
/// defeats the whole update.
proof fn lemma_component_overflow(
    mu: Seq<i64>,
    sigma: Seq<i64>,
    lr_mu: int,
    lr_sigma: int,
    n: int,
    u: Seq<i64>,
    nz: Seq<Seq<i64>>,
    j: int,
)
    requires
        0 <= j < mu.len(),
        mu_component(mu[j] as int, sigma[j] as int, lr_mu, u, nz, n, j) is None || sigma_component(
            sigma[j] as int,
            lr_sigma,
            u,
            nz,
            n,
            j,
        ) is None,
    ensures
        !update_fits(mu, sigma, lr_mu, lr_sigma, n, u, nz),
{
}

proof fn lemma_dot_col_none(u: Seq<i64>, nz: Seq<Seq<i64>>, j: int, k: int, k2: int)
    requires
        dot_col(u, nz, j, k) == Option::<int>::None,
        k <= k2,
    ensures
        dot_col(u, nz, j, k2) == Option::<int>::None,
    decreases k2 - k,
{
    if k2 > k {
        lemma_dot_col_none(u, nz, j, k, k2 - 1);
    }
}

proof fn lemma_dot_sq_col_none(u: Seq<i64>, nz: Seq<Seq<i64>>, j: int, k: int, k2: int)
    requires
        dot_sq_col(u, nz, j, k) == Option::<int>::None,
        k <= k2,
    ensures
        dot_sq_col(u, nz, j, k2) == Option::<int>::None,
    decreases k2 - k,
{
    if k2 > k {
        lemma_dot_sq_col_none(u, nz, j, k, k2 - 1);
    }
}

/// Whether a noise row scales into a candidate without leaving the scalar
/// range: for every dimension both the scaled noise and the shifted mean
/// fit.
pub open spec fn candidate_fits(mu: Seq<i64>, sigma: Seq<i64>, z: Seq<i64>) -> bool {
    forall|j: int|
        0 <= j < mu.len() ==> (fits_i64(fx_mul_spec((#[trigger] z[j]) as int, sigma[j] as int))
            && fits_i64(mu[j] + fx_mul_spec(z[j] as int, sigma[j] as int)))
}

/// Builds one candidate from one row of noise: `mu + z (*) sigma`,
/// elementwise. For every value of the draws the outcome is pinned: the
/// candidate exactly when every component stays in the scalar range,
/// overflow otherwise.
pub fn build_candidate(z: &Vec<i64>, mu: &Vec<i64>, sigma: &Vec<i64>) -> (r: Result<
    Vec<i64>,
    NesError,
>)
    requires
        z@.len() == mu@.len(),
        sigma@.len() == mu@.len(),
    ensures
        (r is Ok) <==> candidate_fits(mu@, sigma@, z@),
        r matches Ok(c) ==> {
            &&& c@.len() == mu@.len()
            &&& forall|j: int|
                0 <= j < mu@.len() ==> (#[trigger] c@[j]) as int == mu@[j] + fx_mul_spec(
                    z@[j] as int,
                    sigma@[j] as int,
                )
        },
        r matches Err(e) ==> e == NesError::OverflowError,
{
    let mut c: Vec<i64> = Vec::new();
    let mut j: usize = 0;
    while j < mu.len()
        invariant
            j <= mu@.len(),
            z@.len() == mu@.len(),
            sigma@.len() == mu@.len(),
            c@.len() == j,
            forall|t: int|
                0 <= t < j ==> (#[trigger] c@[t]) as int == mu@[t] + fx_mul_spec(
                    z@[t] as int,
                    sigma@[t] as int,
                ),
            forall|t: int|
                0 <= t < j ==> (fits_i64(fx_mul_spec((#[trigger] z@[t]) as int, sigma@[t] as int))
                    && fits_i64(mu@[t] + fx_mul_spec(z@[t] as int, sigma@[t] as int))),
        decreases mu@.len() - j,
    {
        match fx_mul(z[j], sigma[j]) {
            Option::None => {
                proof {
                    assert(!candidate_fits(mu@, sigma@, z@));
                }
                return Err(NesError::OverflowError);
            },
            Option::Some(t) => {
                match fx_add(mu[j], t) {
                    Option::None => {
                        proof {
                            assert(!fits_i64(
                                mu@[j as int] + fx_mul_spec(z@[j as int] as int, sigma@[j as int] as int),
                            ));
                            assert(!candidate_fits(mu@, sigma@, z@));
                        }
                        return Err(NesError::OverflowError);
                    },
                    Option::Some(cc) => {
                        c.push(cc);
                    },
                }
            },
        }
        j = j + 1;
    }
    Ok(c)
}

/// A Natural Evolution Strategies optimizer: the search distribution
/// (mean `mu` and per-dimension scale `sigma`, both in `fixed::SCALE`
/// units), the population size, the two learning rates, the rank-shaping
/// switch, and the objective it scores candidates with.
///
/// Construction enforces a non-negative `sigma`; later generations may
/// drive a component negative, which only flips the sign of the noise it
/// scales, and no clamping is applied.
pub struct NES<T: Objective> {
    /// The objective candidates are scored with.
    pub callable: T,
    /// The current mean of the search distribution.
    pub mu: Vec<i64>,
    /// The current per-dimension scale of the search distribution.
    pub sigma: Vec<i64>,
    /// How many candidates each generation samples and scores.
    pub population_size: usize,
    /// Step size of the mean update.
    pub learning_rate_mu: i64,
    /// Step size of the scale update.
    pub learning_rate_sigma: i64,
    /// Whether fitness is replaced by the rank-based utility table.
    pub fitness_shaping: bool,
}

impl<T: Objective> NES<T> {
    /// The configuration every operation relies on: matching dimensions and
    /// a population size the arithmetic can carry.
    pub open spec fn wf(&self) -> bool {
        &&& self.mu@.len() == self.sigma@.len()
        &&& self.mu@.len() >= 1
        &&& 1 <= self.population_size <= MAX_POPULATION
    }

    /// Builds an optimizer, rejecting any misconfiguration before any
    /// sampling can happen: mismatched or empty dimensions, a population
    /// size of zero or beyond `MAX_POPULATION`, or a negative scale.
    pub fn new(
        callable: T,
        mu: Vec<i64>,
        sigma: Vec<i64>,
        population_size: usize,
        learning_rate_mu: i64,
        learning_rate_sigma: i64,
        fitness_shaping: bool,
    ) -> (r: Result<NES<T>, NesError>)
        ensures
            (r is Ok) <==> (mu@.len() == sigma@.len() && mu@.len() >= 1 && 1 <= population_size
                <= MAX_POPULATION && (forall|i: int|
                0 <= i < sigma@.len() ==> (#[trigger] sigma@[i]) >= 0)),
            r matches Ok(nes) ==> {
                &&& nes.wf()
                &&& nes.callable == callable
                &&& nes.mu == mu
                &&& nes.sigma == sigma
                &&& nes.population_size == population_size
                &&& nes.learning_rate_mu == learning_rate_mu
                &&& nes.learning_rate_sigma == learning_rate_sigma
                &&& nes.fitness_shaping == fitness_shaping
            },
            r matches Err(e) ==> e == NesError::ConfigurationError,
    {
        if mu.len() != sigma.len() || mu.len() == 0 {
            return Err(NesError::ConfigurationError);
        }
        if population_size == 0 || population_size > MAX_POPULATION {
            return Err(NesError::ConfigurationError);
        }
        let mut i: usize = 0;
        while i < sigma.len()
            invariant
                i <= sigma@.len(),
                forall|t: int| 0 <= t < i ==> (#[trigger] sigma@[t]) >= 0,
            decreases sigma@.len() - i,
        {
            if sigma[i] < 0 {
                return Err(NesError::ConfigurationError);
            }
            i = i + 1;
        }
        Ok(
            NES {
                callable,
                mu,
                sigma,
                population_size,
                learning_rate_mu,
                learning_rate_sigma,
                fitness_shaping,
            },
        )
    }

    /// The rank-based utility table for this population size: rank `k`
    /// (best first after the ascending sort) receives
    /// `raw(k) / sum(raw) - 1/n` with `raw(k) = max(0, ln(n/2+1) - ln(k+1))`,
    /// independent of the fitness magnitudes of the generation.
    pub fn utility_function(&self) -> (r: Vec<i64>)
        requires
            self.wf(),
        ensures
            r@.len() == self.population_size,
            forall|k: int|
                0 <= k < r@.len() ==> (#[trigger] r@[k]) as int == utility_value(
                    self.population_size as int,
                    k,
                ),
    {
        let n: usize = self.population_size;
        let arg1: i64 = (n as i64) * 32768 + 65536;
        proof {
            lemma_ln_fx_spec_lower(arg1 as int);
        }
        let lnp: i64 = ln_fx(arg1);
        let mut raws: Vec<i64> = Vec::new();
        let mut s: i64 = 0;
        let mut k: usize = 0;
        while k < n
            invariant
                k <= n,
                1 <= n <= MAX_POPULATION,
                arg1 == (n as i64) * 32768 + 65536,
                lnp == ln_fx_spec(arg1 as int),
                22713 <= lnp <= 1500000,
                raws@.len() == k,
                forall|t: int|
                    0 <= t < k ==> (#[trigger] raws@[t]) as int == raw_utility(n as int, t),
                forall|t: int| 0 <= t < k ==> 0 <= #[trigger] raws@[t] <= 1500000,
                s as int == raw_utility_sum(n as int, k as int),
                0 <= s <= (k as int) * 1500000,
                k >= 1 ==> s >= 22713,
            decreases n - k,
        {
            let argk: i64 = (k as i64 + 1) * 65536;
            let lnk: i64 = ln_fx(argk);
            let diff: i64 = lnp - lnk;
            let rawk: i64 = if diff >= 0 {
                diff
            } else {
                0
            };
            proof {
                assert(rawk as int == raw_utility(n as int, k as int));
                if k == 0 {
                    lemma_ln_fx_spec_one();
                    assert(rawk >= 22713);
                }
                assert(s + rawk <= (k as int) * 1500000 + 1500000);
                assert((k as int) * 1500000 + 1500000 == (k as int + 1) * 1500000)
                    by (nonlinear_arith);
                assert((k as int + 1) * 1500000 <= 1000000int * 1500000) by (nonlinear_arith)
                    requires k as int + 1 <= 1000000;
            }
            raws.push(rawk);
            s = s + rawk;
            k = k + 1;
        }
        let sum64: u64 = s as u64;
        let b64: u64 = 65536 / (n as u64);
        proof {
            assert(b64 as int == trunc_div(SCALE as int, n as int));
            assert(s as int == raw_utility_sum(n as int, n as int));
        }
        let mut r: Vec<i64> = Vec::new();
        let mut k2: usize = 0;
        while k2 < n
            invariant
                k2 <= n,
                1 <= n <= MAX_POPULATION,
                raws@.len() == n,
                forall|t: int|
                    0 <= t < n ==> (#[trigger] raws@[t]) as int == raw_utility(n as int, t),
                forall|t: int| 0 <= t < n ==> 0 <= #[trigger] raws@[t] <= 1500000,
                sum64 as int == raw_utility_sum(n as int, n as int),
                22713 <= sum64 <= 1500000000000,
                b64 as int == trunc_div(SCALE as int, n as int),
                b64 <= 65536,
                r@.len() == k2,
                forall|t: int|
                    0 <= t < k2 ==> (#[trigger] r@[t]) as int == utility_value(n as int, t),
            decreases n - k2,
        {
            let rawk: u64 = raws[k2] as u64;
            proof {
                lemma_raw_sum_monotone(n as int, k2 as int + 1, n as int);
                assert(raw_utility_sum(n as int, k2 as int + 1) == raw_utility_sum(
                    n as int,
                    k2 as int,
                ) + raw_utility(n as int, k2 as int));
                lemma_raw_sum_nonneg(n as int, k2 as int);
                assert(rawk as int <= raw_utility_sum(n as int, n as int));
                assert(rawk * 65536 <= 1500000 * 65536) by (nonlinear_arith)
                    requires rawk <= 1500000;
                vstd::arithmetic::div_mod::lemma_div_is_ordered(
                    (rawk as int) * 65536,
                    (sum64 as int) * 65536,
                    sum64 as int,
                );
                vstd::arithmetic::div_mod::lemma_div_by_multiple(65536, sum64 as int);
                assert((sum64 as int) * 65536 == 65536 * (sum64 as int)) by (nonlinear_arith);
            }
            let a64: u64 = rawk * 65536 / sum64;
            let uk: i64 = (a64 as i64) - (b64 as i64);
            proof {
                assert(a64 <= 65536);
                assert(a64 as int == trunc_div(raws@[k2 as int] as int * (SCALE as int), sum64 as int));
                assert(uk as int == utility_value(n as int, k2 as int));
            }
            r.push(uk);
            k2 = k2 + 1;
        }
        r
    }

    /// Computes the updated mean and scale without touching the state, so
    /// that the caller can commit both together or neither.
    fn compute_update(&self, u: &Vec<i64>, nz: &Vec<Vec<i64>>) -> (r: Option<(Vec<i64>, Vec<i64>)>)
        requires
            self.wf(),
            u@.len() == self.population_size,
            nz@.len() == self.population_size,
            forall|k: int| 0 <= k < nz@.len() ==> (#[trigger] nz@[k])@.len() == self.mu@.len(),
        ensures
            (r is Some) <==> update_fits(
                self.mu@,
                self.sigma@,
                self.learning_rate_mu as int,
                self.learning_rate_sigma as int,
                self.population_size as int,
                u@,
                rows_view(nz@),
            ),
            r matches Some(p) ==> update_ok(
                self.mu@,
                self.sigma@,
                self.learning_rate_mu as int,
                self.learning_rate_sigma as int,
                self.population_size as int,
                u@,
                rows_view(nz@),
                p.0@,
                p.1@,
            ),
    {
        let n: usize = u.len();
        let d: usize = self.mu.len();
        let ghost nzv = rows_view(nz@);
        let ghost nn = self.population_size as int;
        proof {
            assert(forall|k: int| 0 <= k < nzv.len() ==> #[trigger] nzv[k] == nz@[k]@);
        }
        let mut mu2: Vec<i64> = Vec::new();
        let mut j: usize = 0;
        while j < d
            invariant
                j <= d,
                d == self.mu@.len(),
                self.wf(),
                n == self.population_size,
                u@.len() == n,
                nz@.len() == n,
                forall|k: int| 0 <= k < nz@.len() ==> (#[trigger] nz@[k])@.len() == d,
                nzv == rows_view(nz@),
                nn == n as int,
                mu2@.len() == j,
                forall|t: int|
                    0 <= t < j ==> mu_component(
                        self.mu@[t] as int,
                        self.sigma@[t] as int,
                        self.learning_rate_mu as int,
                        u@,
                        nzv,
                        nn,
                        t,
                    ) == Option::Some((#[trigger] mu2@[t]) as int),
            decreases d - j,
        {
            let mut acc: i64 = 0;
            let mut k: usize = 0;
            while k < n
                invariant
                    k <= n,
                    j < d,
                    d == self.mu@.len(),
                    n == self.population_size,
                    u@.len() == n,
                    nz@.len() == n,
                    forall|t: int| 0 <= t < nz@.len() ==> (#[trigger] nz@[t])@.len() == d,
                    nzv == rows_view(nz@),
                    dot_col(u@, nzv, j as int, k as int) == Option::Some(acc as int),
                decreases n - k,
            {
                proof {
                    assert(nzv[k as int] == nz@[k as int]@);
                }
                let t: Option<i64> = fx_mul(u[k], nz[k][j]);
                match t {
                    Option::None => {
                        proof {
                            assert(dot_col(u@, nzv, j as int, k + 1) is None);
                            lemma_dot_col_none(u@, nzv, j as int, k + 1, u@.len() as int);
                            assert(mu_component(
                                self.mu@[j as int] as int,
                                self.sigma@[j as int] as int,
                                self.learning_rate_mu as int,
                                u@,
                                nzv,
                                nn,
                                j as int,
                            ) is None);
                            lemma_component_overflow(
                                self.mu@,
                                self.sigma@,
                                self.learning_rate_mu as int,
                                self.learning_rate_sigma as int,
                                nn,
                                u@,
                                nzv,
                                j as int,
                            );
                        }
                        return None;
                    },
                    Option::Some(tv) => {
                        match fx_add(acc, tv) {
                            Option::None => {
                                proof {
                                    assert(dot_col(u@, nzv, j as int, k + 1) is None);
                                    lemma_dot_col_none(u@, nzv, j as int, k + 1, u@.len() as int);
                                    assert(mu_component(
                                        self.mu@[j as int] as int,
                                        self.sigma@[j as int] as int,
                                        self.learning_rate_mu as int,
                                        u@,
                                        nzv,
                                        nn,
                                        j as int,
                                    ) is None);
                                    lemma_component_overflow(self.mu@, self.sigma@, self.learning_rate_mu as int, self.learning_rate_sigma as int, nn, u@, nzv, j as int);
                                }
                                return None;
                            },
                            Option::Some(a2) => {
                                acc = a2;
                            },
                        }
                    },
                }
                k = k + 1;
            }
            let t1: Option<i64> = fx_mul(self.sigma[j], self.learning_rate_mu);
            match t1 {
                Option::None => {
                    proof {
                        assert(mu_component(
                            self.mu@[j as int] as int,
                            self.sigma@[j as int] as int,
                            self.learning_rate_mu as int,
                            u@,
                            nzv,
                            nn,
                            j as int,
                        ) is None);
                        lemma_component_overflow(self.mu@, self.sigma@, self.learning_rate_mu as int, self.learning_rate_sigma as int, nn, u@, nzv, j as int);
                    }
                    return None;
                },
                Option::Some(t1v) => {
                    match fx_mul(t1v, acc) {
                        Option::None => {
                            proof {
                        assert(mu_component(
                            self.mu@[j as int] as int,
                            self.sigma@[j as int] as int,
                            self.learning_rate_mu as int,
                            u@,
                            nzv,
                            nn,
                            j as int,
                        ) is None);
                        lemma_component_overflow(self.mu@, self.sigma@, self.learning_rate_mu as int, self.learning_rate_sigma as int, nn, u@, nzv, j as int);
                    }
                    return None;
                        },
                        Option::Some(t2v) => {
                            let dm: i64 = fx_div_count(t2v, n as u64);
                            match fx_add(self.mu[j], dm) {
                                Option::None => {
                                    proof {
                        assert(mu_component(
                            self.mu@[j as int] as int,
                            self.sigma@[j as int] as int,
                            self.learning_rate_mu as int,
                            u@,
                            nzv,
                            nn,
                            j as int,
                        ) is None);
                        lemma_component_overflow(self.mu@, self.sigma@, self.learning_rate_mu as int, self.learning_rate_sigma as int, nn, u@, nzv, j as int);
                    }
                    return None;
                                },
                                Option::Some(m) => {
                                    mu2.push(m);
                                },
                            }
                        },
                    }
                },
            }
            j = j + 1;
        }
        let mut sigma2: Vec<i64> = Vec::new();
        let mut j2: usize = 0;
        while j2 < d
            invariant
                j2 <= d,
                d == self.mu@.len(),
                self.wf(),
                n == self.population_size,
                u@.len() == n,
                nz@.len() == n,
                forall|k: int| 0 <= k < nz@.len() ==> (#[trigger] nz@[k])@.len() == d,
                nzv == rows_view(nz@),
                nn == n as int,
                sigma2@.len() == j2,
                forall|t: int|
                    0 <= t < j2 ==> sigma_component(
                        self.sigma@[t] as int,
                        self.learning_rate_sigma as int,
                        u@,
                        nzv,
                        nn,
                        t,
                    ) == Option::Some((#[trigger] sigma2@[t]) as int),
            decreases d - j2,
        {
            let mut acc: i64 = 0;
            let mut k: usize = 0;
            while k < n
                invariant
                    k <= n,
                    j2 < d,
                    d == self.mu@.len(),
                    n == self.population_size,
                    u@.len() == n,
                    nz@.len() == n,
                    forall|t: int| 0 <= t < nz@.len() ==> (#[trigger] nz@[t])@.len() == d,
                    nzv == rows_view(nz@),
                    dot_sq_col(u@, nzv, j2 as int, k as int) == Option::Some(acc as int),
                decreases n - k,
            {
                proof {
                    assert(nzv[k as int] == nz@[k as int]@);
                }
                let zkj: i64 = nz[k][j2];
                let s1: Option<i64> = fx_mul(zkj, zkj);
                match s1 {
                    Option::None => {
                        proof {
                            assert(dot_sq_col(u@, nzv, j2 as int, k + 1) is None);
                            lemma_dot_sq_col_none(u@, nzv, j2 as int, k + 1, u@.len() as int);
                            assert(sigma_component(
                                self.sigma@[j2 as int] as int,
                                self.learning_rate_sigma as int,
                                u@,
                                nzv,
                                nn,
                                j2 as int,
                            ) is None);
                            lemma_component_overflow(
                                self.mu@,
                                self.sigma@,
                                self.learning_rate_mu as int,
                                self.learning_rate_sigma as int,
                                nn,
                                u@,
                                nzv,
                                j2 as int,
                            );
                        }
                        return None;
                    },
                    Option::Some(nsq) => {
                        proof {
                            assert((zkj as int) * (zkj as int) >= 0) by (nonlinear_arith);
                            assert(nsq >= 0);
                        }
                        let c: i64 = nsq - SCALE;
                        match fx_mul(u[k], c) {
                            Option::None => {
                                proof {
                                    assert(dot_sq_col(u@, nzv, j2 as int, k + 1) is None);
                                    lemma_dot_sq_col_none(u@, nzv, j2 as int, k + 1, u@.len() as int);
                                    assert(sigma_component(
                                        self.sigma@[j2 as int] as int,
                                        self.learning_rate_sigma as int,
                                        u@,
                                        nzv,
                                        nn,
                                        j2 as int,
                                    ) is None);
                                    lemma_component_overflow(self.mu@, self.sigma@, self.learning_rate_mu as int, self.learning_rate_sigma as int, nn, u@, nzv, j2 as int);
                                }
                                return None;
                            },
                            Option::Some(tv) => {
                                match fx_add(acc, tv) {
                                    Option::None => {
                                        proof {
                                            assert(dot_sq_col(u@, nzv, j2 as int, k + 1) is None);
                                            lemma_dot_sq_col_none(
                                                u@,
                                                nzv,
                                                j2 as int,
                                                k + 1,
                                                u@.len() as int,
                                            );
                                        }
                                        return None;
                                    },
                                    Option::Some(a2) => {
                                        acc = a2;
                                    },
                                }
                            },
                        }
                    },
                }
                k = k + 1;
            }
            let h: i64 = fx_div_count(self.learning_rate_sigma, 2);
            match fx_mul(h, self.sigma[j2]) {
                Option::None => {
                    proof {
                        assert(sigma_component(
                            self.sigma@[j2 as int] as int,
                            self.learning_rate_sigma as int,
                            u@,
                            nzv,
                            nn,
                            j2 as int,
                        ) is None);
                        lemma_component_overflow(self.mu@, self.sigma@, self.learning_rate_mu as int, self.learning_rate_sigma as int, nn, u@, nzv, j2 as int);
                    }
                    return None;
                },
                Option::Some(t1v) => {
                    match fx_mul(t1v, acc) {
                        Option::None => {
                            proof {
                        assert(sigma_component(
                            self.sigma@[j2 as int] as int,
                            self.learning_rate_sigma as int,
                            u@,
                            nzv,
                            nn,
                            j2 as int,
                        ) is None);
                        lemma_component_overflow(self.mu@, self.sigma@, self.learning_rate_mu as int, self.learning_rate_sigma as int, nn, u@, nzv, j2 as int);
                    }
                    return None;
                        },
                        Option::Some(t2v) => {
                            let ds: i64 = fx_div_count(t2v, n as u64);
                            match fx_add(self.sigma[j2], ds) {
                                Option::None => {
                                    proof {
                        assert(sigma_component(
                            self.sigma@[j2 as int] as int,
                            self.learning_rate_sigma as int,
                            u@,
                            nzv,
                            nn,
                            j2 as int,
                        ) is None);
                        lemma_component_overflow(self.mu@, self.sigma@, self.learning_rate_mu as int, self.learning_rate_sigma as int, nn, u@, nzv, j2 as int);
                    }
                    return None;
                                },
                                Option::Some(s2v) => {
                                    sigma2.push(s2v);
                                },
                            }
                        },
                    }
                },
            }
            j2 = j2 + 1;
        }
        proof {
            assert forall|t: int| 0 <= t < self.mu@.len() implies (mu_component(
                self.mu@[t] as int,
                self.sigma@[t] as int,
                self.learning_rate_mu as int,
                u@,
                nzv,
                nn,
                t,
            ) is Some && sigma_component(
                self.sigma@[t] as int,
                self.learning_rate_sigma as int,
                u@,
                nzv,
                nn,
                t,
            ) is Some) by {
                assert(mu_component(
                    self.mu@[t] as int,
                    self.sigma@[t] as int,
                    self.learning_rate_mu as int,
                    u@,
                    nzv,
                    nn,
                    t,
                ) == Option::Some((mu2@[t]) as int));
                assert(sigma_component(
                    self.sigma@[t] as int,
                    self.learning_rate_sigma as int,
                    u@,
                    nzv,
                    nn,
                    t,
                ) == Option::Some((sigma2@[t]) as int));
            }
            assert(update_fits(
                self.mu@,
                self.sigma@,
                self.learning_rate_mu as int,
                self.learning_rate_sigma as int,
                nn,
                u@,
                nzv,
            ));
            assert(update_ok(
                self.mu@,
                self.sigma@,
                self.learning_rate_mu as int,
                self.learning_rate_sigma as int,
                nn,
                u@,
                nzv,
                mu2@,
                sigma2@,
            ));
        }
        Some((mu2, sigma2))
    }

    /// Samples one generation of standard-normal noise and builds one
    /// candidate per population member: `mu + noise (*) sigma`, elementwise.
    /// Returns the noise rows and the candidate rows, index-aligned.
    /// Sampling itself cannot fail, so the only error is a candidate
    /// component leaving the scalar range.
    pub fn build_population<S: NoiseSource>(&self, source: &mut S) -> (r: Result<
        (Vec<Vec<i64>>, Vec<Vec<i64>>),
        NesError,
    >)
        requires
            self.wf(),
        ensures
            r matches Err(e) ==> e == NesError::OverflowError,
            r matches Ok(p) ==> {
                &&& p.0@.len() == self.population_size
                &&& forall|k: int|
                    0 <= k < p.0@.len() ==> (#[trigger] p.0@[k])@.len() == self.mu@.len()
                &&& candidate_rows(self.mu@, self.sigma@, rows_view(p.0@), rows_view(p.1@))
            },
    {
        let n: usize = self.population_size;
        let d: usize = self.mu.len();
        let mut noise: Vec<Vec<i64>> = Vec::new();
        let mut cands: Vec<Vec<i64>> = Vec::new();
        let mut k: usize = 0;
        while k < n
            invariant
                k <= n,
                self.wf(),
                n == self.population_size,
                d == self.mu@.len(),
                noise@.len() == k,
                cands@.len() == k,
                forall|t: int| 0 <= t < k ==> (#[trigger] noise@[t])@.len() == d,
                forall|t: int| 0 <= t < k ==> (#[trigger] cands@[t])@.len() == d,
                forall|t: int, j: int|
                    0 <= t < k && 0 <= j < d ==> (#[trigger] cands@[t]@[j]) as int == self.mu@[j]
                        + fx_mul_spec(noise@[t]@[j] as int, self.sigma@[j] as int),
            decreases n - k,
        {
            let z: Vec<i64> = match random_gaussian_vector(source, d, 0, SCALE) {
                Result::Err(_) => {
                    // standard-normal sampling is contracted to succeed
                    return Err(NesError::OverflowError);
                },
                Result::Ok(v) => v,
            };
            let cand: Vec<i64> = match build_candidate(&z, &self.mu, &self.sigma) {
                Result::Err(e) => {
                    return Err(e);
                },
                Result::Ok(c) => c,
            };
            noise.push(z);
            cands.push(cand);
            k = k + 1;
        }
        proof {
            assert(candidate_rows(self.mu@, self.sigma@, rows_view(noise@), rows_view(cands@)));
        }
        Ok((noise, cands))
    }

    /// Absorbs one scored generation: rejects failed or non-finite
    /// outcomes, shapes the utilities, and commits the mean and scale
    /// update together. Success is owed: when every outcome is a finite
    /// fitness and the shaped update stays in the scalar range, the result
    /// is Ok. On any error the search state is left exactly as it was, so
    /// no partial update is ever observable.
    pub fn apply_generation(&mut self, noise: &Vec<Vec<i64>>, evals: &Vec<Evaluation>) -> (r:
        Result<Vec<i64>, NesError>)
        requires
            old(self).wf(),
            noise@.len() == old(self).population_size,
            forall|k: int|
                0 <= k < noise@.len() ==> (#[trigger] noise@[k])@.len() == old(self).mu@.len(),
            evals@.len() == old(self).population_size,
        ensures
            final(self).wf(),
            final(self).callable == old(self).callable,
            final(self).population_size == old(self).population_size,
            final(self).learning_rate_mu == old(self).learning_rate_mu,
            final(self).learning_rate_sigma == old(self).learning_rate_sigma,
            final(self).fitness_shaping == old(self).fitness_shaping,
            final(self).mu@.len() == old(self).mu@.len(),
            final(self).sigma@.len() == old(self).sigma@.len(),
            r is Err ==> *final(self) == *old(self),
            r is Err ==> (r == Result::<Vec<i64>, NesError>::Err(
                NesError::ObjectiveEvaluationError,
            ) || r == Result::<Vec<i64>, NesError>::Err(NesError::InvalidFitnessError) || r
                == Result::<Vec<i64>, NesError>::Err(NesError::OverflowError)),
            (r == Result::<Vec<i64>, NesError>::Err(NesError::ObjectiveEvaluationError)) <==> (
            exists|k: int| 0 <= k < evals@.len() && (#[trigger] evals@[k]) is Failed),
            (r == Result::<Vec<i64>, NesError>::Err(NesError::InvalidFitnessError)) <==> ((forall|
                k: int,
            | 0 <= k < evals@.len() ==> !((#[trigger] evals@[k]) is Failed)) && (exists|k: int|
                0 <= k < evals@.len() && (#[trigger] evals@[k]) is NonFinite)),
            (r == Result::<Vec<i64>, NesError>::Err(NesError::OverflowError)) <==> (all_values(
                evals@,
            ) && !generation_fits(
                old(self).fitness_shaping,
                old(self).population_size as int,
                old(self).mu@,
                old(self).sigma@,
                old(self).learning_rate_mu as int,
                old(self).learning_rate_sigma as int,
                values_of(evals@),
                rows_view(noise@),
            )),
            r matches Ok(f) ==> {
                &&& f@.len() == old(self).population_size
                &&& forall|k: int|
                    0 <= k < f@.len() ==> evals@[k] == Evaluation::Value(#[trigger] f@[k])
                &&& generation_applied(
                    old(self).fitness_shaping,
                    old(self).population_size as int,
                    old(self).mu@,
                    old(self).sigma@,
                    old(self).learning_rate_mu as int,
                    old(self).learning_rate_sigma as int,
                    f@,
                    rows_view(noise@),
                    final(self).mu@,
                    final(self).sigma@,
                )
            },
    {
        let n: usize = evals.len();
        let mut has_failed: bool = false;
        let mut has_nonfinite: bool = false;
        let mut i: usize = 0;
        while i < n
            invariant
                i <= n,
                n == evals@.len(),
                has_failed == (exists|k: int| 0 <= k < i && (#[trigger] evals@[k]) is Failed),
                has_nonfinite == (exists|k: int|
                    0 <= k < i && (#[trigger] evals@[k]) is NonFinite),
            decreases n - i,
        {
            match evals[i] {
                Evaluation::Failed => {
                    has_failed = true;
                },
                Evaluation::NonFinite => {
                    has_nonfinite = true;
                },
                Evaluation::Value(_) => {
                },
            }
            i = i + 1;
        }
        if has_failed {
            return Err(NesError::ObjectiveEvaluationError);
        }
        if has_nonfinite {
            return Err(NesError::InvalidFitnessError);
        }
        proof {
            assert(all_values(evals@));
        }
        let mut fit: Vec<i64> = Vec::new();
        let mut i2: usize = 0;
        while i2 < n
            invariant
                i2 <= n,
                n == evals@.len(),
                all_values(evals@),
                fit@.len() == i2,
                forall|k: int|
                    0 <= k < i2 ==> evals@[k] == Evaluation::Value(#[trigger] fit@[k]),
            decreases n - i2,
        {
            match evals[i2] {
                Evaluation::Value(v) => {
                    fit.push(v);
                },
                Evaluation::NonFinite => {
                    proof {
                        assert(false);
                    }
                    return Err(NesError::InvalidFitnessError);
                },
                Evaluation::Failed => {
                    proof {
                        assert(false);
                    }
                    return Err(NesError::ObjectiveEvaluationError);
                },
            }
            i2 = i2 + 1;
        }
        proof {
            assert(fit@ =~= values_of(evals@));
        }
        let ghost nzv = rows_view(noise@);
        let ghost nn = self.population_size as int;
        if self.fitness_shaping {
            let ord: Vec<usize> = argsort(&fit);
            let nz2: Vec<Vec<i64>> = reorder_rows(noise, &ord);
            let util: Vec<i64> = self.utility_function();
            proof {
                assert(util@ =~= utility_table(nn));
                assert(rows_view(nz2@) =~= reorder_seq(nzv, ord@));
                assert(forall|k: int|
                    0 <= k < nz2@.len() ==> (#[trigger] nz2@[k])@.len() == self.mu@.len());
            }
            match self.compute_update(&util, &nz2) {
                Option::None => {
                    proof {
                        assert forall|p: Seq<usize>| is_argsort(fit@, p) implies !update_fits(
                            self.mu@,
                            self.sigma@,
                            self.learning_rate_mu as int,
                            self.learning_rate_sigma as int,
                            nn,
                            utility_table(nn),
                            reorder_seq(nzv, p),
                        ) by {
                            crate::utils::lemma_argsort_unique(fit@, p, ord@);
                            assert(reorder_seq(nzv, p) =~= reorder_seq(nzv, ord@));
                        }
                        assert(!generation_fits(
                            self.fitness_shaping,
                            nn,
                            self.mu@,
                            self.sigma@,
                            self.learning_rate_mu as int,
                            self.learning_rate_sigma as int,
                            fit@,
                            nzv,
                        ));
                    }
                    return Err(NesError::OverflowError);
                },
                Option::Some(pair) => {
                    let (m2, s2) = pair;
                    self.mu = m2;
                    self.sigma = s2;
                    proof {
                        assert(is_argsort(fit@, ord@) && update_ok(
                            old(self).mu@,
                            old(self).sigma@,
                            old(self).learning_rate_mu as int,
                            old(self).learning_rate_sigma as int,
                            nn,
                            utility_table(nn),
                            reorder_seq(nzv, ord@),
                            self.mu@,
                            self.sigma@,
                        ));
                        assert(generation_applied(
                            old(self).fitness_shaping,
                            nn,
                            old(self).mu@,
                            old(self).sigma@,
                            old(self).learning_rate_mu as int,
                            old(self).learning_rate_sigma as int,
                            fit@,
                            nzv,
                            self.mu@,
                            self.sigma@,
                        ));
                    }
                    return Ok(fit);
                },
            }
        } else {
            match self.compute_update(&fit, noise) {
                Option::None => {
                    return Err(NesError::OverflowError);
                },
                Option::Some(pair) => {
                    let (m2, s2) = pair;
                    self.mu = m2;
                    self.sigma = s2;
                    return Ok(fit);
                },
            }
        }
    }

    /// One generation: sample the population, score every candidate through
    /// the objective, shape the utilities, and commit the new mean and
    /// scale atomically. Returns the generation's raw fitness values in
    /// population order; on any error the search state is unchanged.
    pub fn step<S: NoiseSource>(&mut self, source: &mut S) -> (r: Result<Vec<i64>, NesError>)
        requires
            old(self).wf(),
        ensures
            final(self).wf(),
            final(self).callable == old(self).callable,
            final(self).population_size == old(self).population_size,
            final(self).learning_rate_mu == old(self).learning_rate_mu,
            final(self).learning_rate_sigma == old(self).learning_rate_sigma,
            final(self).fitness_shaping == old(self).fitness_shaping,
            final(self).mu@.len() == old(self).mu@.len(),
            final(self).sigma@.len() == old(self).sigma@.len(),
            r is Err ==> *final(self) == *old(self),
            r matches Err(e) ==> (e == NesError::InvalidFitnessError || e
                == NesError::ObjectiveEvaluationError || e == NesError::OverflowError),
            r matches Ok(f) ==> f@.len() == old(self).population_size,
            r matches Ok(f) ==> exists|z: Seq<Seq<i64>>, c: Seq<Seq<i64>>|
                stepped(*old(self), *final(self), z, c, f@),
            r == Result::<Vec<i64>, NesError>::Err(NesError::InvalidFitnessError) ==> exists|
                x: Seq<i64>,
            | x.len() == old(self).mu@.len() && (#[trigger] old(self).callable.fitness_of(x))
                is NonFinite,
            r == Result::<Vec<i64>, NesError>::Err(NesError::ObjectiveEvaluationError) ==> exists|
                x: Seq<i64>,
            | x.len() == old(self).mu@.len() && (#[trigger] old(self).callable.fitness_of(x))
                is Failed,
    {
        let pair = match self.build_population(source) {
            Result::Err(e) => {
                return Err(e);
            },
            Result::Ok(p) => p,
        };
        let (noise, cands) = pair;
        let n: usize = noise.len();
        proof {
            assert(rows_view(cands@).len() == cands@.len());
            assert(rows_view(noise@).len() == noise@.len());
            assert forall|t: int| 0 <= t < cands@.len() implies (#[trigger] cands@[t])@.len()
                == self.mu@.len() by {
                assert(rows_view(cands@)[t] == cands@[t]@);
            }
        }
        let mut evals: Vec<Evaluation> = Vec::new();
        let mut k: usize = 0;
        while k < n
            invariant
                k <= n,
                *self == *old(self),
                self.wf(),
                n == self.population_size,
                noise@.len() == n,
                cands@.len() == n,
                forall|t: int| 0 <= t < n ==> (#[trigger] noise@[t])@.len() == self.mu@.len(),
                forall|t: int| 0 <= t < n ==> (#[trigger] cands@[t])@.len() == self.mu@.len(),
                candidate_rows(self.mu@, self.sigma@, rows_view(noise@), rows_view(cands@)),
                evals@.len() == k,
                forall|t: int|
                    0 <= t < k ==> #[trigger] evals@[t] == self.callable.fitness_of(cands@[t]@),
            decreases n - k,
        {
            let e: Evaluation = self.callable.call(&cands[k]);
            evals.push(e);
            k = k + 1;
        }
        let r = self.apply_generation(&noise, &evals);
        match r {
            Result::Ok(f) => {
                proof {
                    let z = rows_view(noise@);
                    let c = rows_view(cands@);
                    assert(stepped(*old(self), *self, z, c, f@));
                }
                Ok(f)
            },
            Result::Err(e) => {
                proof {
                    if e == NesError::InvalidFitnessError {
                        let kk = choose|kk: int|
                            0 <= kk < evals@.len() && (#[trigger] evals@[kk]) is NonFinite;
                        assert(old(self).callable.fitness_of(cands@[kk]@) is NonFinite);
                        assert(cands@[kk]@.len() == old(self).mu@.len());
                    }
                    if e == NesError::ObjectiveEvaluationError {
                        let kk = choose|kk: int|
                            0 <= kk < evals@.len() && (#[trigger] evals@[kk]) is Failed;
                        assert(old(self).callable.fitness_of(cands@[kk]@) is Failed);
                        assert(cands@[kk]@.len() == old(self).mu@.len());
                    }
                }
                Err(e)
            },
        }
    }
}

/// The utility table of a population size, as carried scalars.
pub open spec fn utility_table(n: int) -> Seq<i64> {
    Seq::new(n as nat, |k: int| utility_value(n, k) as i64)
}

/// Whether every outcome of a generation is a finite fitness value.
pub open spec fn all_values(evals: Seq<Evaluation>) -> bool {
    forall|k: int| 0 <= k < evals.len() ==> (#[trigger] evals[k]) is Value
}

/// The finite fitness inside an outcome, zero otherwise.
pub open spec fn value_of(e: Evaluation) -> i64 {
    match e {
        Evaluation::Value(v) => v,
        Evaluation::NonFinite => 0,
        Evaluation::Failed => 0,
    }
}

/// The fitness vector of a generation whose outcomes are all finite.
pub open spec fn values_of(evals: Seq<Evaluation>) -> Seq<i64> {
    Seq::new(evals.len(), |k: int| value_of(evals[k]))
}

/// The committed update follows from the fitness vector `f` and the noise
/// matrix `nz`: with rank shaping the noise is reordered by the stable
/// argsort of `f` and weighted by the utility table; without it the raw
/// fitness itself is the weight.
pub open spec fn generation_applied(
    shaping: bool,
    n: int,
    mu: Seq<i64>,
    sigma: Seq<i64>,
    lr_mu: int,
    lr_sigma: int,
    f: Seq<i64>,
    nz: Seq<Seq<i64>>,
    mu2: Seq<i64>,
    sigma2: Seq<i64>,
) -> bool {
    if shaping {
        exists|p: Seq<usize>|
            #[trigger] is_argsort(f, p) && update_ok(
                mu,
                sigma,
                lr_mu,
                lr_sigma,
                n,
                utility_table(n),
                reorder_seq(nz, p),
                mu2,
                sigma2,
            )
    } else {
        update_ok(mu, sigma, lr_mu, lr_sigma, n, f, nz, mu2, sigma2)
    }
}

/// Whether the update a generation asks for stays inside the scalar range.
pub open spec fn generation_fits(
    shaping: bool,
    n: int,
    mu: Seq<i64>,
    sigma: Seq<i64>,
    lr_mu: int,
    lr_sigma: int,
    f: Seq<i64>,
    nz: Seq<Seq<i64>>,
) -> bool {
    if shaping {
        exists|p: Seq<usize>|
            #[trigger] is_argsort(f, p) && update_fits(
                mu,
                sigma,
                lr_mu,
                lr_sigma,
                n,
                utility_table(n),
                reorder_seq(nz, p),
            )
    } else {
        update_fits(mu, sigma, lr_mu, lr_sigma, n, f, nz)
    }
}

/// Candidate rows are the mean displaced by scale-weighted noise,
/// elementwise: `c[k][j] = mu[j] + z[k][j] * sigma[j]`.
pub open spec fn candidate_rows(
    mu: Seq<i64>,
    sigma: Seq<i64>,
    z: Seq<Seq<i64>>,
    c: Seq<Seq<i64>>,
) -> bool {
    &&& c.len() == z.len()
    &&& forall|k: int| 0 <= k < c.len() ==> (#[trigger] c[k]).len() == mu.len()
    &&& forall|k: int, j: int|
        0 <= k < c.len() && 0 <= j < mu.len() ==> (#[trigger] c[k][j]) as int == mu[j]
            + fx_mul_spec(z[k][j] as int, sigma[j] as int)
}

/// One whole generation: `z` is the sampled noise, `c` the candidates it
/// produced, `f` the fitness the objective owed them, and the post state
/// follows by the shaped update.
pub open spec fn stepped<T: Objective>(
    pre: NES<T>,
    post: NES<T>,
    z: Seq<Seq<i64>>,
    c: Seq<Seq<i64>>,
    f: Seq<i64>,
) -> bool {
    &&& z.len() == pre.population_size
    &&& forall|k: int| 0 <= k < z.len() ==> (#[trigger] z[k]).len() == pre.mu@.len()
    &&& candidate_rows(pre.mu@, pre.sigma@, z, c)
    &&& f.len() == pre.population_size
    &&& forall|k: int|
        0 <= k < f.len() ==> pre.callable.fitness_of(#[trigger] c[k]) == Evaluation::Value(f[k])
    &&& generation_applied(
        pre.fitness_shaping,
        pre.population_size as int,
        pre.mu@,
        pre.sigma@,
        pre.learning_rate_mu as int,
        pre.learning_rate_sigma as int,
        f,
        z,
        post.mu@,
        post.sigma@,
    )
}

/// Partial sums of unnormalized utilities are never negative.
proof fn lemma_raw_sum_nonneg(n: int, k: int)
    ensures
        raw_utility_sum(n, k) >= 0,
    decreases k,
{
    if k > 0 {
        lemma_raw_sum_nonneg(n, k - 1);
    }
}

/// Sum of the first `k` normalized utilities.
pub open spec fn utility_sum(n: int, k: int) -> int
    decreases k,
{
    if k <= 0 {
        0
    } else {
        utility_sum(n, k - 1) + utility_value(n, k - 1)
    }
}

/// Sum of the first `k` scaled utility shares, before the uniform share is
/// taken off.
pub open spec fn scaled_share_sum(n: int, k: int) -> int
    decreases k,
{
    if k <= 0 {
        0
    } else {
        scaled_share_sum(n, k - 1) + trunc_div(
            raw_utility(n, k - 1) * (SCALE as int),
            raw_utility_sum(n, n),
        )
    }
}

proof fn lemma_scaled_share_sum_bounds(n: int, k: int)
    requires
        1 <= n <= MAX_POPULATION,
        0 <= k,
    ensures
        raw_utility_sum(n, n) * scaled_share_sum(n, k) <= (SCALE as int) * raw_utility_sum(n, k),
        raw_utility_sum(n, n) * scaled_share_sum(n, k) >= (SCALE as int) * raw_utility_sum(n, k)
            - k * raw_utility_sum(n, n),
        k >= 1 ==> raw_utility_sum(n, n) * scaled_share_sum(n, k) > (SCALE as int)
            * raw_utility_sum(n, k) - k * raw_utility_sum(n, n),
    decreases k,
{
    let s = raw_utility_sum(n, n);
    lemma_raw_sum_positive(n);
    if k == 0 {
        assert(s * 0 == 0) by (nonlinear_arith);
    } else {
        lemma_scaled_share_sum_bounds(n, k - 1);
        let raw = raw_utility(n, k - 1);
        let x = raw * (SCALE as int);
        assert(x >= 0);
        let q = trunc_div(x, s);
        assert(q == x / s);
        vstd::arithmetic::div_mod::lemma_fundamental_div_mod(x, s);
        vstd::arithmetic::div_mod::lemma_mod_bound(x, s);
        assert(s * q == x - x % s);
        let t0 = scaled_share_sum(n, k - 1);
        assert(s * (t0 + q) == s * t0 + s * q) by (nonlinear_arith);
        assert((SCALE as int) * (raw_utility_sum(n, k - 1) + raw) == (SCALE as int)
            * raw_utility_sum(n, k - 1) + (SCALE as int) * raw) by (nonlinear_arith);
        assert((k - 1) * s + s == k * s) by (nonlinear_arith);
        assert(raw * (SCALE as int) == (SCALE as int) * raw) by (nonlinear_arith);
        assert(scaled_share_sum(n, k) == t0 + q);
        assert(s * scaled_share_sum(n, k) == s * t0 + s * q);
        assert(s * q > x - s);
        assert(s * q <= x);
        assert(raw_utility_sum(n, k) == raw_utility_sum(n, k - 1) + raw);
        assert((SCALE as int) * raw_utility_sum(n, k) == (SCALE as int) * raw_utility_sum(n, k - 1)
            + x);
        assert(s * scaled_share_sum(n, k) <= (SCALE as int) * raw_utility_sum(n, k));
        assert(s * scaled_share_sum(n, k) > (SCALE as int) * raw_utility_sum(n, k) - k * s);
    }
}

proof fn lemma_utility_sum_decompose(n: int, k: int)
    requires
        1 <= n,
        0 <= k,
    ensures
        utility_sum(n, k) == scaled_share_sum(n, k) - k * trunc_div(SCALE as int, n),
    decreases k,
{
    let b = trunc_div(SCALE as int, n);
    if k == 0 {
        assert(0int * b == 0) by (nonlinear_arith);
    } else {
        lemma_utility_sum_decompose(n, k - 1);
        assert((k - 1) * b + b == k * b) by (nonlinear_arith);
    }
}

/// The normalized utilities sum to approximately zero: the total lies
/// strictly between -n and n in raw units, that is within n / SCALE of
/// zero, whatever fitness values the generation produced.
pub proof fn lemma_utility_sum_near_zero(n: int)
    requires
        1 <= n <= MAX_POPULATION,
    ensures
        -n < utility_sum(n, n) < n,
{
    let s = raw_utility_sum(n, n);
    lemma_raw_sum_positive(n);
    lemma_scaled_share_sum_bounds(n, n);
    let t = scaled_share_sum(n, n);
    assert(s * t <= (SCALE as int) * s);
    assert((SCALE as int) * s == s * (SCALE as int)) by (nonlinear_arith);
    assert(t <= SCALE as int) by (nonlinear_arith)
        requires s >= 1, s * t <= s * (SCALE as int);
    assert(s * t > (SCALE as int) * s - n * s);
    assert((SCALE as int) * s - n * s == s * ((SCALE as int) - n)) by (nonlinear_arith);
    assert(t > (SCALE as int) - n) by (nonlinear_arith)
        requires s >= 1, s * t > s * ((SCALE as int) - n);
    let b = trunc_div(SCALE as int, n);
    assert(b == (SCALE as int) / n);
    vstd::arithmetic::div_mod::lemma_fundamental_div_mod(SCALE as int, n);
    vstd::arithmetic::div_mod::lemma_mod_bound(SCALE as int, n);
    assert(n * b <= SCALE as int);
    assert(n * b > (SCALE as int) - n);
    lemma_utility_sum_decompose(n, n);
    assert(utility_sum(n, n) == t - n * b);
}

proof fn lemma_dot_col_zero(u: Seq<i64>, nz: Seq<Seq<i64>>, j: int, k: int)
    requires
        0 <= k <= u.len(),
        0 <= j,
        nz.len() == u.len(),
        forall|t: int, jj: int|
            0 <= t < nz.len() && 0 <= jj < nz[t].len() ==> #[trigger] nz[t][jj] == 0,
        forall|t: int| 0 <= t < nz.len() ==> j < (#[trigger] nz[t]).len(),
    ensures
        dot_col(u, nz, j, k) == Option::Some(0int),
    decreases k,
{
    if k > 0 {
        lemma_dot_col_zero(u, nz, j, k - 1);
        assert(nz[k - 1][j] == 0);
        assert(u[k - 1] as int * 0 == 0) by (nonlinear_arith);
        assert(fx_mul_spec(u[k - 1] as int, 0) == 0);
    }
}

/// With exactly zero noise the mean does not drift: whatever the utility
/// weights, every mean component is returned unchanged by the update.
pub proof fn lemma_zero_noise_keeps_mu(
    mu: Seq<i64>,
    sigma: Seq<i64>,
    lr_mu: int,
    u: Seq<i64>,
    nz: Seq<Seq<i64>>,
    n: int,
    j: int,
)
    requires
        n >= 1,
        0 <= j < mu.len(),
        sigma.len() == mu.len(),
        nz.len() == u.len(),
        forall|t: int| 0 <= t < nz.len() ==> (#[trigger] nz[t]).len() == mu.len(),
        forall|t: int, jj: int|
            0 <= t < nz.len() && 0 <= jj < nz[t].len() ==> #[trigger] nz[t][jj] == 0,
        fits_i64(fx_mul_spec(sigma[j] as int, lr_mu)),
    ensures
        mu_component(mu[j] as int, sigma[j] as int, lr_mu, u, nz, n, j) == Option::Some(
            mu[j] as int,
        ),
{
    lemma_dot_col_zero(u, nz, j, u.len() as int);
    let a = fx_mul_spec(sigma[j] as int, lr_mu);
    assert(a * 0 == 0) by (nonlinear_arith);
    assert(fx_mul_spec(a, 0) == 0);
    assert(trunc_div(0, n) == 0);
}

} // verus!
