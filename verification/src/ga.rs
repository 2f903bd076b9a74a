//! Fitness-proportionate selection with per-bit mutation: the step that
//! turns one generation of a population into the next.

use crate::config::UNIT;
use crate::genotype::{lemma_zero_rate_never_mutates, mutated, mutation_draws, Genotype};
use crate::random::random_below;
use vstd::arithmetic::div_mod::{lemma_div_is_ordered, lemma_fundamental_div_mod, lemma_mod_bound};
use vstd::prelude::*;

verus! {

/// The weights of a population cannot be normalised: their sum is zero.
#[derive(Clone, Copy, Debug, PartialEq, Eq)]
pub struct DegenerateWeights;

/// The sum of all weights.
pub open spec fn total(w: Seq<u64>) -> nat
    decreases w.len(),
{
    if w.len() == 0 {
        0
    } else {
        total(w.drop_last()) + w.last() as nat
    }
}

/// The running sum of the weights up to and including index `i`.
pub open spec fn cumulative(w: Seq<u64>, i: int) -> nat {
    total(w.take(i + 1))
}

/// Each weight as a fixed-point share of `whole`: `floor(w[i] * UNIT / whole)`.
pub open spec fn scaled(w: Seq<u64>, whole: nat) -> Seq<u64> {
    Seq::new(w.len(), |i: int| ((w[i] * UNIT) / (whole as int)) as u64)
}

/// The weights divided by their sum, as fixed-point probabilities.
pub open spec fn normalised(w: Seq<u64>) -> Seq<u64> {
    scaled(w, total(w))
}

/// Index `idx` is the one selected from `probs` by the draw `draw`: the first
/// index whose running sum reaches `draw`, and the last index if no running
/// sum does.
pub open spec fn selects(probs: Seq<u64>, draw: int, idx: int) -> bool {
    &&& 0 <= idx < probs.len()
    &&& forall|j: int| 0 <= j < idx ==> #[trigger] cumulative(probs, j) < draw
    &&& (cumulative(probs, idx) >= draw || idx == probs.len() - 1)
}

/// `child` can come out of one slot of a generation step: it is a member of
/// `pop`, selected by some draw below `UNIT`, after one round of mutation.
pub open spec fn offspring_of(
    pop: Seq<Genotype>,
    probs: Seq<u64>,
    rate: u64,
    child: Seq<u32>,
) -> bool {
    exists|parent: int, draw: int, flips: Seq<u64>|
        #![trigger selects(probs, draw, parent), mutated(pop[parent]@, rate, flips)]
        {
            &&& 0 <= draw < UNIT
            &&& selects(probs, draw, parent)
            &&& parent < pop.len()
            &&& mutation_draws(flips, pop[parent]@.len())
            &&& child == mutated(pop[parent]@, rate, flips)
        }
}

/// No weight exceeds the sum of all weights, and the sum of `n` weights is
/// at most `n * u64::MAX`.
pub proof fn lemma_total_bounds(w: Seq<u64>)
    ensures
        forall|i: int| 0 <= i < w.len() ==> w[i] <= total(w),
        total(w) <= w.len() * u64::MAX,
    decreases w.len(),
{
    if w.len() > 0 {
        let shorter = w.drop_last();
        lemma_total_bounds(shorter);
        assert forall|i: int| 0 <= i < w.len() implies w[i] <= total(w) by {
            if i < shorter.len() {
                assert(shorter[i] == w[i]);
            }
        }
        assert(shorter.len() * u64::MAX + u64::MAX == w.len() * u64::MAX) by (nonlinear_arith)
            requires
                shorter.len() + 1 == w.len(),
        ;
    }
}

/// A draw selects exactly one index.
pub proof fn lemma_selection_is_unique(probs: Seq<u64>, draw: int, a: int, b: int)
    requires
        selects(probs, draw, a),
        selects(probs, draw, b),
    ensures
        a == b,
{
    if a < b {
        assert(cumulative(probs, a) < draw);
    } else if b < a {
        assert(cumulative(probs, b) < draw);
    }
}

/// Scaled shares lose less than one unit each to rounding: multiplied back
/// by `whole`, their sum lies within `len * (whole - 1)` below
/// `UNIT * total(w)` and never above it.
pub proof fn lemma_scaled_total(w: Seq<u64>, whole: nat)
    requires
        whole > 0,
        forall|i: int| 0 <= i < w.len() ==> w[i] <= whole,
    ensures
        whole * total(scaled(w, whole)) <= UNIT * total(w),
        UNIT * total(w) <= whole * total(scaled(w, whole)) + w.len() * (whole - 1),
    decreases w.len(),
{
    if w.len() == 0 {
        assert(whole * 0 == 0) by (nonlinear_arith);
        assert(UNIT * 0 == 0);
    } else {
        let shorter = w.drop_last();
        lemma_scaled_total(shorter, whole);
        assert(scaled(w, whole).drop_last() =~= scaled(shorter, whole));
        let last = w.last() as int;
        let share = (last * UNIT) / (whole as int);
        lemma_fundamental_div_mod(last * UNIT, whole as int);
        lemma_mod_bound(last * UNIT, whole as int);
        assert(last * UNIT <= whole * UNIT) by (nonlinear_arith)
            requires
                last <= whole,
        ;
        lemma_div_is_ordered(last * UNIT, whole * UNIT, whole as int);
        assert((whole * UNIT) / (whole as int) == UNIT) by (nonlinear_arith)
            requires
                whole > 0,
        ;
        assert(0 <= share) by (nonlinear_arith)
            requires
                share == (last * UNIT) / (whole as int),
                last >= 0,
                whole > 0,
        ;
        assert(scaled(w, whole).last() == share);
        let before = total(scaled(shorter, whole)) as int;
        let sum_before = total(shorter) as int;
        assert(whole * (before + share) == whole * before + whole * share) by (nonlinear_arith);
        assert(UNIT * (sum_before + last) == UNIT * sum_before + last * UNIT) by (nonlinear_arith);
        assert(w.len() * (whole - 1) == shorter.len() * (whole - 1) + (whole - 1))
            by (nonlinear_arith)
            requires
                w.len() == shorter.len() + 1,
        ;
    }
}

/// Normalised weights sum to 1 up to rounding: the sum of the probabilities
/// is at most `UNIT`, and falls short of it by less than one unit per
/// weight.
pub proof fn lemma_normalised_sums_to_one(w: Seq<u64>)
    requires
        total(w) > 0,
    ensures
        normalised(w).len() == w.len(),
        UNIT - w.len() < total(normalised(w)) <= UNIT,
{
    let whole = total(w);
    lemma_total_bounds(w);
    lemma_scaled_total(w, whole);
    let sum = total(normalised(w));
    assert(sum <= UNIT) by (nonlinear_arith)
        requires
            whole * sum <= UNIT * whole,
            whole > 0,
    ;
    let len = w.len() as int;
    assert(len >= 1);
    assert(len * (whole - 1) < len * whole) by (nonlinear_arith)
        requires
            len >= 1,
    ;
    assert(UNIT - len < sum) by (nonlinear_arith)
        requires
            UNIT * whole < whole * sum + len * whole,
            whole > 0,
    ;
}

/// Without mutation an offspring is a copy of a member of the population.
pub proof fn lemma_offspring_without_mutation(pop: Seq<Genotype>, probs: Seq<u64>, child: Seq<u32>)
    requires
        offspring_of(pop, probs, 0, child),
    ensures
        exists|parent: int| 0 <= parent < pop.len() && child == (#[trigger] pop[parent])@,
{
    let (parent, draw, flips) = choose|parent: int, draw: int, flips: Seq<u64>|
        #![trigger selects(probs, draw, parent), mutated(pop[parent]@, 0, flips)]
        {
            &&& 0 <= draw < UNIT
            &&& selects(probs, draw, parent)
            &&& parent < pop.len()
            &&& mutation_draws(flips, pop[parent]@.len())
            &&& child == mutated(pop[parent]@, 0, flips)
        };
    lemma_zero_rate_never_mutates(pop[parent]@, flips);
    assert(child == pop[parent]@);
}

/// Divides each weight by the sum of all weights.
///
/// The probabilities come out in fixed point, each rounded down, in the
/// order of the weights. Weights whose sum is zero cannot be normalised.
pub fn normalise(vec: Vec<u64>) -> (res: Result<Vec<u64>, DegenerateWeights>)
    ensures
        match res {
            Ok(probs) => {
                &&& total(vec@) > 0
                &&& probs@ == normalised(vec@)
                &&& UNIT - vec@.len() < total(probs@) <= UNIT
            },
            Err(_) => total(vec@) == 0,
        },
{
    let mut sum: u128 = 0;
    let mut idx: usize = 0;
    proof {
        assert(vec@.take(0) =~= Seq::<u64>::empty());
    }
    while idx < vec.len()
        invariant
            idx <= vec.len(),
            sum == total(vec@.take(idx as int)),
        decreases vec.len() - idx,
    {
        proof {
            assert(vec@.take(idx + 1).drop_last() =~= vec@.take(idx as int));
            lemma_total_bounds(vec@.take(idx + 1));
            assert((idx + 1) * u64::MAX <= u128::MAX) by (nonlinear_arith)
                requires
                    idx + 1 <= u64::MAX,
            ;
        }
        sum = sum + vec[idx] as u128;
        idx += 1;
    }
    proof {
        assert(vec@.take(vec.len() as int) =~= vec@);
        lemma_total_bounds(vec@);
    }
    if sum == 0 {
        return Err(DegenerateWeights);
    }
    let mut probs: Vec<u64> = Vec::new();
    let mut idx: usize = 0;
    while idx < vec.len()
        invariant
            idx <= vec.len(),
            sum == total(vec@),
            sum > 0,
            forall|i: int| 0 <= i < vec.len() ==> vec[i] <= sum,
            probs.len() == idx,
            forall|i: int| 0 <= i < idx ==> probs[i] == normalised(vec@)[i],
        decreases vec.len() - idx,
    {
        let weight: u128 = vec[idx] as u128;
        proof {
            assert(weight * UNIT <= sum * UNIT) by (nonlinear_arith)
                requires
                    weight <= sum,
            ;
            assert(weight * UNIT <= u128::MAX) by (nonlinear_arith)
                requires
                    weight <= u64::MAX,
                    UNIT == 1_000_000,
            ;
            lemma_div_is_ordered(weight * UNIT, sum * UNIT, sum as int);
            assert((sum * UNIT) / (sum as int) == UNIT) by (nonlinear_arith)
                requires
                    sum > 0,
            ;
        }
        let share: u128 = (weight * (UNIT as u128)) / sum;
        probs.push(share as u64);
        idx += 1;
    }
    proof {
        assert(probs@ =~= normalised(vec@));
        lemma_normalised_sums_to_one(vec@);
    }
    Ok(probs)
}

/// The index that `draw` selects from `probs`: the first index at which the
/// running sum of the probabilities reaches `draw`. Where rounding keeps
/// every running sum below `draw`, the last index is selected.
pub fn index_for_draw(probs: &Vec<u64>, draw: u64) -> (idx: usize)
    requires
        probs.len() > 0,
    ensures
        selects(probs@, draw as int, idx as int),
{
    let mut sum: u128 = 0;
    let mut idx: usize = 0;
    proof {
        assert(probs@.take(0) =~= Seq::<u64>::empty());
    }
    while idx < probs.len()
        invariant
            idx <= probs.len(),
            sum == total(probs@.take(idx as int)),
            forall|j: int| 0 <= j < idx ==> #[trigger] cumulative(probs@, j) < draw,
        decreases probs.len() - idx,
    {
        proof {
            assert(probs@.take(idx + 1).drop_last() =~= probs@.take(idx as int));
            lemma_total_bounds(probs@.take(idx + 1));
            assert((idx + 1) * u64::MAX <= u128::MAX) by (nonlinear_arith)
                requires
                    idx + 1 <= u64::MAX,
            ;
        }
        sum = sum + probs[idx] as u128;
        if draw as u128 <= sum {
            return idx;
        }
        idx += 1;
    }
    probs.len() - 1
}

/// Draws an index with probability proportional to its weight: one uniform
/// draw from `[0, UNIT)` decides, as `index_for_draw` says.
pub fn idx_from_prob_dist(probs: &Vec<u64>) -> (idx: usize)
    requires
        probs.len() > 0,
    ensures
        idx < probs.len(),
        exists|draw: int| 0 <= draw < UNIT && #[trigger] selects(probs@, draw, idx as int),
{
    let rn: u64 = random_below(UNIT);
    let idx = index_for_draw(probs, rn);
    assert(selects(probs@, rn as int, idx as int));
    idx
}

/// One generation step of one population.
///
/// The fitnesses are normalised; then every slot of the new population is
/// filled independently with a copy of a member of `pop`, selected with
/// probability proportional to its fitness, after one round of mutation at
/// probability `mutrate / UNIT` per bit. Neither `pop` nor `fit` is
/// changed. Fitnesses whose sum is zero select nothing.
pub fn ga_step(pop: &Vec<Genotype>, fit: &Vec<u64>, mutrate: u64) -> (res: Result<
    Vec<Genotype>,
    DegenerateWeights,
>)
    requires
        pop.len() == fit.len(),
        forall|i: int| 0 <= i < pop.len() ==> (#[trigger] pop[i]).wf(),
    ensures
        match res {
            Ok(new_pop) => {
                &&& total(fit@) > 0
                &&& new_pop.len() == pop.len()
                &&& forall|i: int|
                    0 <= i < new_pop.len() ==> {
                        &&& (#[trigger] new_pop[i]).wf()
                        &&& offspring_of(pop@, normalised(fit@), mutrate, new_pop[i]@)
                    }
            },
            Err(_) => total(fit@) == 0,
        },
{
    let probs = match normalise(fit.clone()) {
        Ok(probs) => probs,
        Err(e) => {
            return Err(e);
        },
    };
    let mut new_pop: Vec<Genotype> = Vec::new();
    let mut slot: usize = 0;
    while slot < pop.len()
        invariant
            slot <= pop.len(),
            pop.len() == fit.len(),
            probs@ == normalised(fit@),
            forall|i: int| 0 <= i < pop.len() ==> (#[trigger] pop[i]).wf(),
            new_pop.len() == slot,
            forall|i: int|
                0 <= i < slot ==> {
                    &&& (#[trigger] new_pop[i]).wf()
                    &&& offspring_of(pop@, probs@, mutrate, new_pop[i]@)
                },
        decreases pop.len() - slot,
    {
        let parent: usize = idx_from_prob_dist(&probs);
        let mut geno = pop[parent].clone();
        let ghost before = geno@;
        geno.mutate(mutrate);
        proof {
            let draw = choose|draw: int|
                0 <= draw < UNIT && #[trigger] selects(probs@, draw, parent as int);
            let flips = choose|flips: Seq<u64>|
                mutation_draws(flips, before.len()) && geno@ == #[trigger] mutated(
                    before,
                    mutrate,
                    flips,
                );
            assert(selects(probs@, draw, parent as int) && geno@ == mutated(
                pop@[parent as int]@,
                mutrate,
                flips,
            ));
        }
        new_pop.push(geno);
        slot += 1;
    }
    Ok(new_pop)
}

} // verus!
