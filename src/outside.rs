//! The calls this library makes into outside crates, with what it relies on.
use vstd::prelude::*;
use itertools::Itertools;
use rand::distributions::Distribution;

verus! {

/// The `k`-element subsets of `start..n`, each in increasing order, listed in
/// lexicographic order.
pub open spec fn lex_combinations(start: nat, n: nat, k: nat) -> Seq<Seq<usize>>
    decreases n - start,
{
    if k == 0 {
        seq![Seq::<usize>::empty()]
    } else if start >= n {
        Seq::empty()
    } else {
        lex_combinations(start + 1, n, (k - 1) as nat).map_values(|c: Seq<usize>| seq![start as usize] + c)
            + lex_combinations(start + 1, n, k)
    }
}

/// The sum of a sequence of weights.
pub open spec fn weight_sum(w: Seq<u128>) -> int
    decreases w.len(),
{
    if w.len() == 0 {
        0
    } else {
        weight_sum(w.drop_last()) + w.last()
    }
}

/// Relies on `Itertools::combinations` over `0..n`: it yields every `k`-length
/// combination of the positions, each in the order of the input, in
/// lexicographic order (one empty combination when `k` is 0).
#[verifier::external_body]
pub(crate) fn index_combinations(n: usize, k: usize) -> (r: Vec<Vec<usize>>)
    ensures
        r@.len() == lex_combinations(0, n as nat, k as nat).len(),
        forall|i: int| 0 <= i < r@.len() ==> (#[trigger] r@[i])@ == lex_combinations(0, n as nat, k as nat)[i],
{
    (0..n).combinations(k).collect()
}

/// Relies on `rand::distributions::WeightedIndex` sampled with the thread's
/// generator: the index drawn lies in the list, with a chance proportional
/// to its weight, so an index of weight zero is never drawn.
#[verifier::external_body]
pub(crate) fn draw_weighted(weights: &Vec<u128>) -> (r: usize)
    requires
        weights@.len() > 0,
        0 < weight_sum(weights@) <= u128::MAX,
    ensures
        r < weights@.len(),
        weights@[r as int] > 0,
{
    let dist = rand::distributions::WeightedIndex::new(weights).unwrap();
    dist.sample(&mut rand::thread_rng())
}

/// Relies on `rand::random::<bool>`: a fair coin from the thread's generator.
/// Nothing is promised of the value.
#[verifier::external_body]
pub(crate) fn random_bit() -> bool {
    rand::random::<bool>()
}

} // verus!
