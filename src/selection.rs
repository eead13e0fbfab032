//! The selection sampler: next-generation weights from a round's record.
use vstd::prelude::*;
use crate::types::{AgentRoundData, RoundState};
use crate::round::{EngineError, in_i128, int_sum, record_wf, record_counts};
use crate::game::Game;

verus! {

/// A genome's selection weight, `d * s * p * (1 - pressure)` with
/// `pressure = (sum of s2 * p2 over the other genomes) / s`, times the
/// positive factor `N³ / d` that all genomes share. With `s = score / N`,
/// `p = count / N` and `fitness = score * N - average` this is
/// `d_num * count * (fitness + score * count)`, and zero for a zero score.
pub open spec fn selection_weight(d: u32, e: AgentRoundData) -> int {
    if e.score == 0 {
        0
    } else {
        (d * e.count) * (e.fitness + e.score * e.count)
    }
}

/// Each step of a genome's weight fits in 128 bits.
pub open spec fn weight_fits(d: u32, e: AgentRoundData) -> bool {
    e.score == 0 || (in_i128(e.score * e.count) && in_i128(e.fitness + e.score * e.count)
        && in_i128((d * e.count) * (e.fitness + e.score * e.count)))
}

/// The selection weights of a round's genomes, in its order.
pub open spec fn raw_weights(d: u32, r: RoundState) -> Seq<int> {
    Seq::new(r.agent_data@.len(), |g: int| selection_weight(d, r.agent_data@[g].1))
}

/// The total selection weight of a round.
pub open spec fn weight_total(d: u32, r: RoundState) -> int {
    int_sum(raw_weights(d, r))
}

/// A genome survives selection when its weight is at least a `1 / N` share
/// of the total.
pub open spec fn survives(d: u32, r: RoundState, g: int) -> bool {
    r.population * raw_weights(d, r)[g] >= weight_total(d, r)
}

/// The weights that remain after filtering: a survivor keeps its weight,
/// every other genome gets zero.
pub open spec fn kept_weights(d: u32, r: RoundState) -> Seq<int> {
    Seq::new(r.agent_data@.len(), |g: int| if survives(d, r, g) { raw_weights(d, r)[g] } else { 0 })
}

/// The weights and every running sum of their total fit in 128 bits.
pub open spec fn weights_fit(d: u32, r: RoundState) -> bool {
    &&& forall|g: int| 0 <= g < r.agent_data@.len() ==> #[trigger] weight_fits(d, r.agent_data@[g].1)
    &&& forall|j: int| 0 <= j < r.agent_data@.len() ==> in_i128(#[trigger] int_sum(raw_weights(d, r).take(j + 1)))
}

/// The survival tests and every running sum of the kept weights fit.
pub open spec fn filter_fits(d: u32, r: RoundState) -> bool {
    &&& forall|g: int| 0 <= g < r.agent_data@.len() ==> in_i128(r.population * #[trigger] raw_weights(d, r)[g])
    &&& forall|j: int| 0 <= j < r.agent_data@.len() ==> #[trigger] int_sum(kept_weights(d, r).take(j + 1)) <= u128::MAX
}

proof fn lemma_sum_step(xs: Seq<int>, j: int)
    requires
        0 <= j < xs.len(),
    ensures
        int_sum(xs.take(j + 1)) == int_sum(xs.take(j)) + xs[j],
{
    assert(xs.take(j + 1).drop_last() == xs.take(j));
}

proof fn lemma_sum_at_least_len(xs: Seq<int>)
    requires
        forall|g: int| 0 <= g < xs.len() ==> #[trigger] xs[g] >= 1,
    ensures
        int_sum(xs) >= xs.len(),
    decreases xs.len(),
{
    if xs.len() > 0 {
        assert forall|g: int| 0 <= g < xs.drop_last().len() implies #[trigger] xs.drop_last()[g] >= 1 by {
            assert(xs.drop_last()[g] == xs[g]);
        }
        lemma_sum_at_least_len(xs.drop_last());
    }
}

/// When every `n * xs[g]` falls below `t`, `n` times the sum falls below
/// `len * t`.
proof fn lemma_scaled_sum_below(xs: Seq<int>, n: int, t: int)
    requires
        forall|g: int| 0 <= g < xs.len() ==> n * #[trigger] xs[g] < t,
    ensures
        xs.len() > 0 ==> n * int_sum(xs) < xs.len() * t,
    decreases xs.len(),
{
    if xs.len() > 0 {
        let rest = xs.drop_last();
        assert forall|g: int| 0 <= g < rest.len() implies n * #[trigger] rest[g] < t by {
            assert(rest[g] == xs[g]);
        }
        lemma_scaled_sum_below(rest, n, t);
        let (s, x, k) = (int_sum(rest), xs.last(), rest.len() as int);
        assert(int_sum(xs) == s + x);
        assert(xs.len() == k + 1);
        assert(n * xs[k] < t);
        assert(n * x < t);
        if k == 0 {
            assert(s == 0);
        }
        assert(n * (s + x) < (k + 1) * t) by (nonlinear_arith)
            requires
                (k > 0 && n * s < k * t) || (k == 0 && s == 0),
                n * x < t,
        ;
    }
}

/// A positive total leaves at least one genome with a `1 / N` share of it,
/// since a population of `N` has at most `N` genomes.
proof fn lemma_some_survivor(d: u32, r: RoundState)
    requires
        record_wf(r),
        r.agent_data@.len() > 0,
        weight_total(d, r) > 0,
    ensures
        exists|g: int| 0 <= g < r.agent_data@.len() && survives(d, r, g),
{
    let xs = raw_weights(d, r);
    let n = r.population as int;
    let t = weight_total(d, r);
    assert forall|g: int| 0 <= g < record_counts(r).len() implies #[trigger] record_counts(r)[g] >= 1 by {
        assert(r.agent_data@[g].1.count >= 1);
    }
    lemma_sum_at_least_len(record_counts(r));
    if !(exists|g: int| 0 <= g < r.agent_data@.len() && survives(d, r, g)) {
        assert forall|g: int| 0 <= g < xs.len() implies n * #[trigger] xs[g] < t by {
            assert(!survives(d, r, g));
        }
        lemma_scaled_sum_below(xs, n, t);
        let k = xs.len() as int;
        assert(n * t < k * t);
        assert(k <= n);
        assert(k * t <= n * t) by (nonlinear_arith)
            requires
                k <= n,
                t > 0,
        ;
    }
}

/// A genome's selection weight, or `None` when a step leaves the 128-bit
/// range.
fn raw_weight(d: u32, e: &AgentRoundData) -> (r: Option<i128>)
    ensures
        r is Some <==> weight_fits(d, *e),
        r matches Some(w) ==> w == selection_weight(d, *e),
{
    if e.score == 0 {
        return Some(0);
    }
    let scaled = match e.score.checked_mul(e.count as i128) {
        Some(v) => v,
        None => {
            return None;
        },
    };
    let gain = match e.fitness.checked_add(scaled) {
        Some(v) => v,
        None => {
            return None;
        },
    };
    assert(0 <= d * e.count <= 0xffff_ffff * 0xffff_ffff) by (nonlinear_arith)
        requires
            0 <= d <= 0xffff_ffff,
            0 <= e.count <= 0xffff_ffff,
    ;
    let factor: i128 = d as i128 * e.count as i128;
    factor.checked_mul(gain)
}

impl Game {
    /// The next generation's weights over a round's genomes, in its order.
    /// A genome's weight is its selection weight if that is at least a
    /// `1 / N` share of the total, and zero otherwise; the kept weights have
    /// a positive total, so normalised they sum to one exactly. A total that
    /// is not positive is a collapse.
    pub fn compute_next_probability(&self, round_data: &RoundState) -> (r: Result<Vec<u128>, EngineError>)
        requires
            record_wf(*round_data),
        ensures
            r == Err::<Vec<u128>, EngineError>(EngineError::Collapsed)
                <==> (weights_fit(self.death_numerator, *round_data) && weight_total(self.death_numerator, *round_data) <= 0),
            r == Err::<Vec<u128>, EngineError>(EngineError::OutOfRange)
                <==> (!weights_fit(self.death_numerator, *round_data)
                    || (weight_total(self.death_numerator, *round_data) > 0 && !filter_fits(self.death_numerator, *round_data))),
            r matches Ok(w) ==> w@.len() == round_data.agent_data@.len()
                && (forall|g: int| 0 <= g < w@.len() ==> #[trigger] w@[g] == kept_weights(self.death_numerator, *round_data)[g])
                && crate::outside::weight_sum(w@) == int_sum(kept_weights(self.death_numerator, *round_data))
                && crate::outside::weight_sum(w@) > 0
                && crate::outside::weight_sum(w@) <= u128::MAX,
    {
        let d = self.death_numerator;
        let ghost rd = *round_data;
        let ghost xs = raw_weights(d, rd);
        let n = round_data.agent_data.len();
        let mut raw: Vec<i128> = Vec::new();
        let mut total: i128 = 0;
        let mut g: usize = 0;
        while g < n
            invariant
                n == rd.agent_data@.len(),
                rd == *round_data,
                xs == raw_weights(d, rd),
                d == self.death_numerator,
                g <= n,
                raw@.len() == g,
                forall|a: int| 0 <= a < g ==> #[trigger] raw@[a] == xs[a],
                forall|a: int| 0 <= a < g ==> #[trigger] weight_fits(d, rd.agent_data@[a].1),
                forall|a: int| 0 <= a < g ==> in_i128(#[trigger] int_sum(xs.take(a + 1))),
                total == int_sum(xs.take(g as int)),
            decreases n - g,
        {
            proof { lemma_sum_step(xs, g as int); }
            let w = match raw_weight(d, &round_data.agent_data[g].1) {
                Some(w) => w,
                None => {
                    assert(!weight_fits(d, rd.agent_data@[g as int].1));
                    assert(!weights_fit(d, rd));
                    return Err(EngineError::OutOfRange);
                },
            };
            total = match total.checked_add(w) {
                Some(t) => t,
                None => {
                    assert(!in_i128(int_sum(xs.take(g + 1))));
                    assert(!weights_fit(d, rd));
                    return Err(EngineError::OutOfRange);
                },
            };
            raw.push(w);
            g = g + 1;
        }
        assert(xs.take(n as int) == xs);
        assert(weights_fit(d, rd));
        if total <= 0 {
            return Err(EngineError::Collapsed);
        }
        let ghost ks = kept_weights(d, rd);
        let pop = round_data.population as i128;
        let mut kept: Vec<u128> = Vec::new();
        let mut sum: u128 = 0;
        let mut g: usize = 0;
        while g < n
            invariant
                n == rd.agent_data@.len() == raw@.len(),
                rd == *round_data,
                xs == raw_weights(d, rd),
                ks == kept_weights(d, rd),
                d == self.death_numerator,
                weights_fit(d, rd),
                total == weight_total(d, rd) > 0,
                pop == rd.population,
                forall|a: int| 0 <= a < n ==> #[trigger] raw@[a] == xs[a],
                g <= n,
                kept@.len() == g,
                forall|a: int| 0 <= a < g ==> #[trigger] kept@[a] == ks[a],
                forall|a: int| 0 <= a < g ==> in_i128(rd.population * #[trigger] xs[a]),
                forall|a: int| 0 <= a < g ==> #[trigger] int_sum(ks.take(a + 1)) <= u128::MAX,
                sum == int_sum(ks.take(g as int)),
                sum == crate::outside::weight_sum(kept@),
            decreases n - g,
        {
            proof { lemma_sum_step(ks, g as int); }
            let scaled = match pop.checked_mul(raw[g]) {
                Some(v) => v,
                None => {
                    assert(!in_i128(rd.population * xs[g as int]));
                    assert(!filter_fits(d, rd));
                    return Err(EngineError::OutOfRange);
                },
            };
            let w: u128 = if scaled >= total {
                assert(raw@[g as int] > 0) by (nonlinear_arith)
                    requires
                        scaled == pop * raw@[g as int],
                        scaled >= total > 0,
                        pop >= 0,
                ;
                raw[g] as u128
            } else {
                0
            };
            assert(w == ks[g as int]);
            sum = match sum.checked_add(w) {
                Some(v) => v,
                None => {
                    assert(int_sum(ks.take(g + 1)) > u128::MAX);
                    assert(!filter_fits(d, rd));
                    return Err(EngineError::OutOfRange);
                },
            };
            let ghost before = kept@;
            kept.push(w);
            assert(kept@.drop_last() == before);
            g = g + 1;
        }
        assert(ks.take(n as int) == ks);
        proof {
            lemma_some_survivor(d, rd);
            let s = choose|s: int| 0 <= s < n && survives(d, rd, s);
            let pop_n = rd.population as int;
            assert forall|g: int| 0 <= g < ks.len() implies #[trigger] ks[g] >= 0 && (g == s ==> ks[g] > 0) by {
                if survives(d, rd, g) {
                    let x = xs[g];
                    assert(x > 0) by (nonlinear_arith)
                        requires
                            pop_n * x >= total,
                            total > 0,
                            pop_n >= 0,
                    ;
                }
            }
            lemma_kept_positive(ks, s);
        }
        Ok(kept)
    }
}

/// A sum of non-negative values with one positive value is positive.
proof fn lemma_kept_positive(ks: Seq<int>, s: int)
    requires
        0 <= s < ks.len(),
        ks[s] > 0,
        forall|g: int| 0 <= g < ks.len() ==> #[trigger] ks[g] >= 0,
    ensures
        int_sum(ks) > 0,
    decreases ks.len(),
{
    let rest = ks.drop_last();
    assert forall|g: int| 0 <= g < rest.len() implies #[trigger] rest[g] >= 0 by {
        assert(rest[g] == ks[g]);
    }
    if s == ks.len() - 1 {
        lemma_sum_nonneg(rest);
    } else {
        assert(rest[s] == ks[s]);
        lemma_kept_positive(rest, s);
    }
}

proof fn lemma_sum_nonneg(ks: Seq<int>)
    requires
        forall|g: int| 0 <= g < ks.len() ==> #[trigger] ks[g] >= 0,
    ensures
        int_sum(ks) >= 0,
    decreases ks.len(),
{
    if ks.len() > 0 {
        let rest = ks.drop_last();
        assert forall|g: int| 0 <= g < rest.len() implies #[trigger] rest[g] >= 0 by {
            assert(rest[g] == ks[g]);
        }
        lemma_sum_nonneg(rest);
    }
}

} // verus!
