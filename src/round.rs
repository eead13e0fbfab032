//! The round engine: every genome's score against all combinations of
//! distinct genomes, the population's average score, and each fitness.
use vstd::prelude::*;
use vstd::arithmetic::power2::*;
use crate::agent::{Agent, action_for, lemma_memory_bound};
use crate::types::{AgentMetaData, AgentRoundData, GameBoard, RoundState};
use crate::ledger::{count_sum, ledger_counts, ledger_wf, same_ledger};
use crate::outside::{index_combinations, lex_combinations};
use crate::game::Game;

verus! {

/// Why a round, or the step that follows it, cannot go on.
#[derive(Clone, Copy, Debug, PartialEq, Eq)]
pub enum EngineError {
    /// Fewer than two distinct genomes remain, or no selection weight is left.
    Collapsed,
    /// An exact intermediate value does not fit in 128 bits.
    OutOfRange,
}

pub open spec fn in_i128(x: int) -> bool {
    i128::MIN <= x <= i128::MAX
}

/// How many individuals carry the genome at position `j` of a ledger.
pub open spec fn count_at(l: Seq<(Agent, AgentMetaData)>, j: int) -> int {
    l[j].1.count as int
}

/// The actions that the genomes of a combination play this round.
pub open spec fn combo_actions(l: Seq<(Agent, AgentMetaData)>, combo: Seq<usize>) -> Seq<bool> {
    combo.map_values(|j: usize| action_for(l[j as int].0.genome@, l[j as int].0.history@))
}

/// How many individuals carry the genomes of a combination, together.
pub open spec fn combo_count(l: Seq<(Agent, AgentMetaData)>, combo: Seq<usize>) -> int
    decreases combo.len(),
{
    if combo.len() == 0 {
        0
    } else {
        combo_count(l, combo.drop_last()) + count_at(l, combo.last() as int)
    }
}

/// What genome `g` earns from position `i` of a combination: if it stands
/// there, its payoff weighted by the counts of the other participants.
pub open spec fn member_term(l: Seq<(Agent, AgentMetaData)>, b: GameBoard, combo: Seq<usize>, i: int, g: int) -> int {
    if combo[i] as int == g {
        b.payoff_of(combo_actions(l, combo))[i] as int * (combo_count(l, combo) - count_at(l, g))
    } else {
        0
    }
}

/// What genome `g` earns from the first `i` positions of a combination.
pub open spec fn combo_part(l: Seq<(Agent, AgentMetaData)>, b: GameBoard, combo: Seq<usize>, i: int, g: int) -> int
    decreases i,
{
    if i <= 0 {
        0
    } else {
        combo_part(l, b, combo, i - 1, g) + member_term(l, b, combo, i - 1, g)
    }
}

/// What genome `g` earns from the first `t` combinations.
pub open spec fn combos_part(l: Seq<(Agent, AgentMetaData)>, b: GameBoard, cs: Seq<Seq<usize>>, t: int, g: int) -> int
    decreases t,
{
    if t <= 0 {
        0
    } else {
        combos_part(l, b, cs, t - 1, g) + combo_part(l, b, cs[t - 1], cs[t - 1].len() as int, g)
    }
}

/// The combinations of distinct genomes that meet in a round, by position.
pub open spec fn round_combinations(l: Seq<(Agent, AgentMetaData)>, b: GameBoard) -> Seq<Seq<usize>> {
    lex_combinations(0, l.len(), b.n_players as nat)
}

/// A genome's round score, times the population size.
pub open spec fn round_score(l: Seq<(Agent, AgentMetaData)>, b: GameBoard, g: int) -> int {
    let cs = round_combinations(l, b);
    combos_part(l, b, cs, cs.len() as int, g)
}

/// Every genome's round score, times the population size.
pub open spec fn round_scores(l: Seq<(Agent, AgentMetaData)>, b: GameBoard) -> Seq<int> {
    Seq::new(l.len(), |g: int| round_score(l, b, g))
}

/// The counts of a ledger as integers.
pub open spec fn counts_of(l: Seq<(Agent, AgentMetaData)>) -> Seq<int> {
    Seq::new(l.len(), |g: int| count_at(l, g))
}

/// The sum of `xs[g] * ys[g]` over the positions of two sequences of equal
/// length.
pub open spec fn dot(xs: Seq<int>, ys: Seq<int>) -> int
    decreases xs.len(),
{
    if xs.len() == 0 || ys.len() == 0 {
        0
    } else {
        dot(xs.drop_last(), ys.drop_last()) + xs.last() * ys.last()
    }
}

/// The sum of a sequence of integers.
pub open spec fn int_sum(xs: Seq<int>) -> int
    decreases xs.len(),
{
    if xs.len() == 0 {
        0
    } else {
        int_sum(xs.drop_last()) + xs.last()
    }
}

/// The average score, times the square of the population size.
pub open spec fn round_average(l: Seq<(Agent, AgentMetaData)>, b: GameBoard) -> int {
    dot(round_scores(l, b), counts_of(l))
}

/// Every partial sum of combination `t`, added to what came before it, fits.
pub open spec fn combination_fits(l: Seq<(Agent, AgentMetaData)>, b: GameBoard, cs: Seq<Seq<usize>>, t: int) -> bool {
    forall|i: int, g: int| 0 <= i <= cs[t].len() && 0 <= g < l.len() ==>
        in_i128(combos_part(l, b, cs, t, g) + #[trigger] combo_part(l, b, cs[t], i, g))
}

/// Every product and partial sum of the average fits.
pub open spec fn average_fits(xs: Seq<int>, ys: Seq<int>) -> bool {
    forall|j: int| 0 <= j < xs.len() ==> in_i128(#[trigger] xs[j] * ys[j]) && in_i128(dot(xs.take(j + 1), ys.take(j + 1)))
}

/// Every exact intermediate value of a round fits in 128 bits: the running
/// scores, the terms and partial sums of the average, and each fitness.
pub open spec fn round_fits(l: Seq<(Agent, AgentMetaData)>, b: GameBoard, n: nat) -> bool {
    let cs = round_combinations(l, b);
    let s = round_scores(l, b);
    &&& forall|t: int| 0 <= t < cs.len() ==> #[trigger] combination_fits(l, b, cs, t)
    &&& average_fits(s, counts_of(l))
    &&& forall|g: int| 0 <= g < l.len() ==> in_i128((#[trigger] s[g]) * n) && in_i128(s[g] * n - round_average(l, b))
}

/// A round's record is consistent: the average is the share-weighted sum of
/// the scores, each fitness is the score less the average, and the counts
/// add up to the population (all scaled as `AgentRoundData` says).
pub open spec fn record_wf(r: RoundState) -> bool {
    let d = r.agent_data@;
    &&& forall|g: int| 0 <= g < d.len() ==> (#[trigger] d[g]).1.population == r.population
        && d[g].1.fitness == d[g].1.score * r.population - r.average_score
        && d[g].1.count >= 1
    &&& int_sum(record_counts(r)) == r.population
    &&& r.average_score == dot(record_scores(r), record_counts(r))
}

pub open spec fn record_scores(r: RoundState) -> Seq<int> {
    r.agent_data@.map_values(|e: (Agent, AgentRoundData)| e.1.score as int)
}

pub open spec fn record_counts(r: RoundState) -> Seq<int> {
    r.agent_data@.map_values(|e: (Agent, AgentRoundData)| e.1.count as int)
}

pub open spec fn record_fitnesses(r: RoundState) -> Seq<int> {
    r.agent_data@.map_values(|e: (Agent, AgentRoundData)| e.1.fitness as int)
}

/// The record holds, for each genome of the ledger in its order, the exact
/// round score, fitness and count.
pub open spec fn record_of(r: RoundState, l: Seq<(Agent, AgentMetaData)>, b: GameBoard, round_number: u32, n: nat) -> bool {
    let d = r.agent_data@;
    &&& r.round_number == round_number
    &&& r.population == n
    &&& r.average_score == round_average(l, b)
    &&& d.len() == l.len()
    &&& forall|g: int| 0 <= g < d.len() ==> (#[trigger] d[g]).0@ == l[g].0@ && d[g].0.wf()
        && d[g].1.count == l[g].1.count
        && d[g].1.score == round_score(l, b, g)
        && d[g].1.fitness == round_score(l, b, g) * n - round_average(l, b)
        && d[g].1.population == n
}

/// Every combination has `k` members, increasing, drawn from `start..n`.
pub proof fn lemma_lex_shape(start: nat, n: nat, k: nat)
    requires
        n <= usize::MAX,
    ensures
        forall|t: int| 0 <= t < lex_combinations(start, n, k).len() ==> (#[trigger] lex_combinations(start, n, k)[t]).len() == k
            && forall|i: int| 0 <= i < k ==> start <= #[trigger] lex_combinations(start, n, k)[t][i] < n,
    decreases n - start,
{
    let cs = lex_combinations(start, n, k);
    if k == 0 {
    } else if start >= n {
    } else {
        lemma_lex_shape(start + 1, n, (k - 1) as nat);
        lemma_lex_shape(start + 1, n, k);
        let left = lex_combinations(start + 1, n, (k - 1) as nat).map_values(|c: Seq<usize>| seq![start as usize] + c);
        let right = lex_combinations(start + 1, n, k);
        assert(cs == left + right);
        assert forall|t: int| 0 <= t < cs.len() implies (#[trigger] cs[t]).len() == k
            && forall|i: int| 0 <= i < k ==> start <= #[trigger] cs[t][i] < n by {
            if t < left.len() {
                let c = lex_combinations(start + 1, n, (k - 1) as nat)[t];
                assert(cs[t] == seq![start as usize] + c);
                assert forall|i: int| 0 <= i < k implies start <= #[trigger] cs[t][i] < n by {
                    if i > 0 {
                        assert(cs[t][i] == c[i - 1]);
                    }
                }
            } else {
                assert(cs[t] == right[t - left.len()]);
            }
        }
    }
}

/// The counts of a combination's genomes add up to at least any one member's
/// and at most `u32::MAX` per member.
proof fn lemma_combo_count_bounds(l: Seq<(Agent, AgentMetaData)>, combo: Seq<usize>)
    requires
        forall|i: int| 0 <= i < combo.len() ==> #[trigger] combo[i] < l.len(),
    ensures
        0 <= combo_count(l, combo) <= combo.len() * u32::MAX,
        forall|i: int| 0 <= i < combo.len() ==> combo_count(l, combo) >= count_at(l, #[trigger] combo[i] as int),
    decreases combo.len(),
{
    if combo.len() > 0 {
        let rest = combo.drop_last();
        assert forall|i: int| 0 <= i < rest.len() implies #[trigger] rest[i] < l.len() by {
            assert(rest[i] == combo[i]);
        }
        lemma_combo_count_bounds(l, rest);
        assert forall|i: int| 0 <= i < combo.len() implies combo_count(l, combo) >= count_at(l, #[trigger] combo[i] as int) by {
            if i < rest.len() {
                assert(rest[i] == combo[i]);
            }
        }
    }
}

proof fn lemma_same_combo_count(e: Seq<(Agent, AgentMetaData)>, l: Seq<(Agent, AgentMetaData)>, combo: Seq<usize>)
    requires
        same_ledger(e, l),
        forall|i: int| 0 <= i < combo.len() ==> #[trigger] combo[i] < l.len(),
    ensures
        combo_count(e, combo) == combo_count(l, combo),
        combo_actions(e, combo) == combo_actions(l, combo),
    decreases combo.len(),
{
    if combo.len() > 0 {
        let r = combo.drop_last();
        assert forall|i: int| 0 <= i < r.len() implies #[trigger] r[i] < l.len() by {
            assert(r[i] == combo[i]);
        }
        lemma_same_combo_count(e, l, r);
        let j = combo.last() as int;
        assert(combo[combo.len() - 1] < l.len());
        assert(e[j].1 == l[j].1);
    }
    assert forall|i: int| 0 <= i < combo.len() implies #[trigger] combo_actions(e, combo)[i] == combo_actions(l, combo)[i] by {
        let j = combo[i] as int;
        assert(e[j].0@ == l[j].0@);
    }
    assert(combo_actions(e, combo) =~= combo_actions(l, combo));
}

proof fn lemma_same_combo_part(e: Seq<(Agent, AgentMetaData)>, l: Seq<(Agent, AgentMetaData)>, b: GameBoard, combo: Seq<usize>, i: int)
    requires
        same_ledger(e, l),
        forall|i: int| 0 <= i < combo.len() ==> #[trigger] combo[i] < l.len(),
        i <= combo.len(),
    ensures
        forall|g: int| #[trigger] combo_part(e, b, combo, i, g) == combo_part(l, b, combo, i, g),
    decreases i,
{
    if i > 0 {
        lemma_same_combo_part(e, l, b, combo, i - 1);
        lemma_same_combo_count(e, l, combo);
        assert forall|g: int| #[trigger] member_term(e, b, combo, i - 1, g) == member_term(l, b, combo, i - 1, g) by {
            if combo[i - 1] as int == g {
                assert(e[g].1 == l[g].1);
            }
        }
        assert forall|g: int| #[trigger] combo_part(e, b, combo, i, g) == combo_part(l, b, combo, i, g) by {
            assert(member_term(e, b, combo, i - 1, g) == member_term(l, b, combo, i - 1, g));
            assert(combo_part(e, b, combo, i - 1, g) == combo_part(l, b, combo, i - 1, g));
        }
    }
}

proof fn lemma_same_combos_part(e: Seq<(Agent, AgentMetaData)>, l: Seq<(Agent, AgentMetaData)>, b: GameBoard, cs: Seq<Seq<usize>>, t: int)
    requires
        same_ledger(e, l),
        t <= cs.len(),
        forall|u: int| 0 <= u < cs.len() ==> forall|i: int| 0 <= i < (#[trigger] cs[u]).len() ==> #[trigger] cs[u][i] < l.len(),
    ensures
        forall|g: int| #[trigger] combos_part(e, b, cs, t, g) == combos_part(l, b, cs, t, g),
    decreases t,
{
    if t > 0 {
        lemma_same_combos_part(e, l, b, cs, t - 1);
        let c = cs[t - 1];
        assert forall|i: int| 0 <= i < c.len() implies #[trigger] c[i] < l.len() by {
            assert(c[i] == cs[t - 1][i]);
        }
        lemma_same_combo_part(e, l, b, c, c.len() as int);
        assert forall|g: int| #[trigger] combos_part(e, b, cs, t, g) == combos_part(l, b, cs, t, g) by {
            assert(combo_part(e, b, c, c.len() as int, g) == combo_part(l, b, c, c.len() as int, g));
            assert(combos_part(e, b, cs, t - 1, g) == combos_part(l, b, cs, t - 1, g));
        }
    }
}

/// A round depends on a ledger only through its entries' views and records:
/// two ledgers that agree there score alike and fit alike.
pub proof fn lemma_same_round(e: Seq<(Agent, AgentMetaData)>, l: Seq<(Agent, AgentMetaData)>, b: GameBoard, n: nat)
    requires
        same_ledger(e, l),
        l.len() <= usize::MAX,
    ensures
        round_fits(e, b, n) == round_fits(l, b, n),
        round_average(e, b) == round_average(l, b),
        forall|g: int| #[trigger] round_score(e, b, g) == round_score(l, b, g),
        counts_of(e) == counts_of(l),
{
    let cs = round_combinations(l, b);
    assert(round_combinations(e, b) == cs);
    lemma_lex_shape(0, l.len(), b.n_players as nat);
    assert forall|u: int| 0 <= u < cs.len() implies forall|i: int| 0 <= i < (#[trigger] cs[u]).len() ==> #[trigger] cs[u][i] < l.len() by {
        assert forall|i: int| 0 <= i < cs[u].len() implies #[trigger] cs[u][i] < l.len() by {
            assert(cs[u].len() == b.n_players);
        }
    }
    lemma_same_combos_part(e, l, b, cs, cs.len() as int);
    assert forall|g: int| #[trigger] round_score(e, b, g) == round_score(l, b, g) by {
        assert(combos_part(e, b, cs, cs.len() as int, g) == combos_part(l, b, cs, cs.len() as int, g));
    }
    assert(round_scores(e, b) =~= round_scores(l, b));
    assert forall|g: int| 0 <= g < l.len() implies #[trigger] counts_of(e)[g] == counts_of(l)[g] by {
        assert(e[g].1 == l[g].1);
    }
    assert(counts_of(e) =~= counts_of(l));
    assert forall|t: int| 0 <= t < cs.len() implies #[trigger] combination_fits(e, b, cs, t) == combination_fits(l, b, cs, t) by {
        lemma_same_combos_part(e, l, b, cs, t);
        let c = cs[t];
        assert forall|i: int| 0 <= i < c.len() implies #[trigger] c[i] < l.len() by {
            assert(c[i] == cs[t][i]);
        }
        assert forall|i: int, g: int| 0 <= i <= c.len() implies #[trigger] combo_part(e, b, c, i, g) == combo_part(l, b, c, i, g) by {
            lemma_same_combo_part(e, l, b, c, i);
        }
        assert(combination_fits(e, b, cs, t) ==> combination_fits(l, b, cs, t)) by {
            if combination_fits(e, b, cs, t) {
                assert forall|i: int, g: int| 0 <= i <= cs[t].len() && 0 <= g < l.len() implies
                    in_i128(combos_part(l, b, cs, t, g) + #[trigger] combo_part(l, b, cs[t], i, g)) by {
                    assert(combo_part(e, b, c, i, g) == combo_part(l, b, c, i, g));
                    assert(combos_part(e, b, cs, t, g) == combos_part(l, b, cs, t, g));
                    assert(in_i128(combos_part(e, b, cs, t, g) + combo_part(e, b, cs[t], i, g)));
                }
            }
        }
        assert(combination_fits(l, b, cs, t) ==> combination_fits(e, b, cs, t)) by {
            if combination_fits(l, b, cs, t) {
                assert forall|i: int, g: int| 0 <= i <= cs[t].len() && 0 <= g < e.len() implies
                    in_i128(combos_part(e, b, cs, t, g) + #[trigger] combo_part(e, b, cs[t], i, g)) by {
                    assert(combo_part(e, b, c, i, g) == combo_part(l, b, c, i, g));
                    assert(combos_part(e, b, cs, t, g) == combos_part(l, b, cs, t, g));
                    assert(in_i128(combos_part(l, b, cs, t, g) + combo_part(l, b, cs[t], i, g)));
                }
            }
        }
    }
    assert(round_average(e, b) == round_average(l, b));
    if forall|t: int| 0 <= t < cs.len() ==> #[trigger] combination_fits(e, b, cs, t) {
        assert forall|t: int| 0 <= t < cs.len() implies #[trigger] combination_fits(l, b, cs, t) by {
            assert(combination_fits(e, b, cs, t));
        }
    }
    if forall|t: int| 0 <= t < cs.len() ==> #[trigger] combination_fits(l, b, cs, t) {
        assert forall|t: int| 0 <= t < cs.len() implies #[trigger] combination_fits(e, b, cs, t) by {
            assert(combination_fits(l, b, cs, t));
        }
    }
    assert(average_fits(round_scores(e, b), counts_of(e)) == average_fits(round_scores(l, b), counts_of(l)));
}


/// A record of one ledger is the record of any ledger with the same entries.
pub proof fn lemma_same_record(r: RoundState, e: Seq<(Agent, AgentMetaData)>, l: Seq<(Agent, AgentMetaData)>, b: GameBoard, round_number: u32, n: nat)
    requires
        same_ledger(e, l),
        l.len() <= usize::MAX,
        record_of(r, e, b, round_number, n),
    ensures
        record_of(r, l, b, round_number, n),
{
    lemma_same_round(e, l, b, n);
    assert forall|g: int| 0 <= g < r.agent_data@.len() implies (#[trigger] r.agent_data@[g]).0@ == l[g].0@ && r.agent_data@[g].0.wf()
        && r.agent_data@[g].1.count == l[g].1.count
        && r.agent_data@[g].1.score == round_score(l, b, g)
        && r.agent_data@[g].1.fitness == round_score(l, b, g) * n - round_average(l, b)
        && r.agent_data@[g].1.population == n by {
        assert(e[g].0@ == l[g].0@ && e[g].1 == l[g].1);
        assert(round_score(e, b, g) == round_score(l, b, g));
    }
}

/// Adds what one combination earns each genome to `scores`, unless a running
/// sum leaves the 128-bit range; tells whether every running sum fitted.
fn add_combination(l: &Vec<(Agent, AgentMetaData)>, b: &GameBoard, combo: &Vec<usize>, scores: &mut Vec<i128>) -> (ok: bool)
    requires
        b.wf(),
        forall|g: int| 0 <= g < l@.len() ==> (#[trigger] l@[g]).0.wf(),
        combo@.len() == b.n_players,
        forall|i: int| 0 <= i < combo@.len() ==> #[trigger] combo@[i] < l@.len(),
        old(scores)@.len() == l@.len(),
    ensures
        final(scores)@.len() == l@.len(),
        ok == (forall|i: int, g: int| 0 <= i <= combo@.len() && 0 <= g < l@.len() ==>
            in_i128(old(scores)@[g] + #[trigger] combo_part(l@, *b, combo@, i, g))),
        ok ==> forall|g: int| 0 <= g < l@.len() ==>
            #[trigger] final(scores)@[g] == old(scores)@[g] + combo_part(l@, *b, combo@, combo@.len() as int, g),
{
    let k = combo.len();
    let rows = b.payoff_matrix.len();
    proof {
        lemma_memory_bound(b.n_players as nat);
        lemma_combo_count_bounds(l@, combo@);
    }
    let mut actions: Vec<bool> = Vec::new();
    let mut i: usize = 0;
    while i < k
        invariant
            k == combo@.len(),
            i <= k,
            actions@.len() == i,
            forall|g: int| 0 <= g < l@.len() ==> (#[trigger] l@[g]).0.wf(),
            forall|i: int| 0 <= i < combo@.len() ==> #[trigger] combo@[i] < l@.len(),
            forall|a: int| 0 <= a < i ==> #[trigger] actions@[a] == action_for(l@[combo@[a] as int].0.genome@, l@[combo@[a] as int].0.history@),
        decreases k - i,
    {
        let j = combo[i];
        actions.push(l[j].0.map_history_to_action());
        i = i + 1;
    }
    assert(actions@ =~= combo_actions(l@, combo@));
    let payoff = b.get_payoff(&actions);
    let mut total: i128 = 0;
    let mut i: usize = 0;
    while i < k
        invariant
            k == combo@.len() < 64,
            i <= k,
            forall|i: int| 0 <= i < combo@.len() ==> #[trigger] combo@[i] < l@.len(),
            total == combo_count(l@, combo@.take(i as int)),
            0 <= total <= i * 0xffff_ffff,
        decreases k - i,
    {
        let c = l[combo[i]].1.count;
        assert(combo@.take(i + 1).drop_last() == combo@.take(i as int));
        total = total + c as i128;
        i = i + 1;
    }
    assert(combo@.take(k as int) == combo@);
    let ghost base = scores@;
    let mut i: usize = 0;
    while i < k
        invariant
            k == combo@.len() < 64,
            i <= k,
            base == old(scores)@,
            scores@.len() == l@.len(),
            forall|i: int| 0 <= i < combo@.len() ==> #[trigger] combo@[i] < l@.len(),
            total == combo_count(l@, combo@),
            0 <= total <= k * 0xffff_ffff,
            forall|i: int| 0 <= i < combo@.len() ==> total >= count_at(l@, #[trigger] combo@[i] as int),
            payoff@ == b.payoff_of(combo_actions(l@, combo@)),
            payoff@.len() == k,
            forall|g: int| 0 <= g < l@.len() ==> #[trigger] scores@[g] == base[g] + combo_part(l@, *b, combo@, i as int, g),
            forall|a: int, g: int| 0 <= a <= i && 0 <= g < l@.len() ==> in_i128(base[g] + #[trigger] combo_part(l@, *b, combo@, a, g)),
        decreases k - i,
    {
        let j = combo[i];
        let c = l[j].1.count;
        let p = payoff[i];
        assert(total >= c);
        let ghost x = total - c;
        assert(-0x8000_0000 * 0x40_0000_0000 <= p * x <= 0x8000_0000 * 0x40_0000_0000) by (nonlinear_arith)
            requires
                -0x8000_0000 <= p < 0x8000_0000,
                0 <= x <= 0x40_0000_0000,
        ;
        let term: i128 = p as i128 * (total - c as i128);
        assert(term == member_term(l@, *b, combo@, i as int, j as int));
        assert forall|g: int| 0 <= g < l@.len() && g != j implies member_term(l@, *b, combo@, i as int, g) == 0 by {}
        match scores[j].checked_add(term) {
            Some(v) => {
                scores.set(j, v);
            },
            None => {
                assert(!in_i128(base[j as int] + combo_part(l@, *b, combo@, i + 1, j as int)));
                return false;
            },
        }
        assert forall|a: int, g: int| 0 <= a <= i + 1 && 0 <= g < l@.len() implies in_i128(base[g] + #[trigger] combo_part(l@, *b, combo@, a, g)) by {
            if a == i + 1 && g != j {
                assert(combo_part(l@, *b, combo@, a, g) == combo_part(l@, *b, combo@, i as int, g));
            }
        }
        i = i + 1;
    }
    true
}

/// Every genome's round score, times the population size, or `None` when a
/// running sum leaves the 128-bit range.
fn score_all(l: &Vec<(Agent, AgentMetaData)>, b: &GameBoard) -> (r: Option<Vec<i128>>)
    requires
        b.wf(),
        forall|g: int| 0 <= g < l@.len() ==> (#[trigger] l@[g]).0.wf(),
    ensures
        r is Some <==> (forall|t: int| 0 <= t < round_combinations(l@, *b).len() ==> #[trigger] combination_fits(l@, *b, round_combinations(l@, *b), t)),
        r matches Some(s) ==> s@.len() == l@.len() && forall|g: int| 0 <= g < l@.len() ==> #[trigger] s@[g] == round_score(l@, *b, g),
{
    let n = l.len();
    let ghost spec_cs = round_combinations(l@, *b);
    let cs = index_combinations(n, b.n_players as usize);
    proof {
        lemma_lex_shape(0, n as nat, b.n_players as nat);
    }
    let mut scores: Vec<i128> = Vec::new();
    let mut g: usize = 0;
    while g < n
        invariant
            g <= n,
            scores@.len() == g,
            forall|a: int| 0 <= a < g ==> #[trigger] scores@[a] == 0,
        decreases n - g,
    {
        scores.push(0);
        g = g + 1;
    }
    let mut t: usize = 0;
    while t < cs.len()
        invariant
            n == l@.len(),
            b.wf(),
            forall|g: int| 0 <= g < l@.len() ==> (#[trigger] l@[g]).0.wf(),
            spec_cs == round_combinations(l@, *b),
            cs@.len() == spec_cs.len(),
            forall|t: int| 0 <= t < cs@.len() ==> (#[trigger] cs@[t])@ == spec_cs[t],
            forall|t: int| 0 <= t < spec_cs.len() ==> (#[trigger] spec_cs[t]).len() == b.n_players
                && forall|i: int| 0 <= i < b.n_players ==> 0 <= #[trigger] spec_cs[t][i] < n,
            t <= cs@.len(),
            scores@.len() == n,
            forall|g: int| 0 <= g < n ==> #[trigger] scores@[g] == combos_part(l@, *b, spec_cs, t as int, g),
            forall|a: int| 0 <= a < t ==> #[trigger] combination_fits(l@, *b, spec_cs, a),
        decreases cs@.len() - t,
    {
        let ghost before = scores@;
        let combo = &cs[t];
        assert(combo@ == spec_cs[t as int]);
        assert forall|i: int| 0 <= i < combo@.len() implies #[trigger] combo@[i] < l@.len() by {
            assert(combo@[i] == spec_cs[t as int][i]);
        }
        let ok = add_combination(l, b, combo, &mut scores);
        if !ok {
            assert(!combination_fits(l@, *b, spec_cs, t as int)) by {
                let (wi, wg) = choose|i: int, g: int| 0 <= i <= combo@.len() && 0 <= g < l@.len() &&
                    !in_i128(before[g] + #[trigger] combo_part(l@, *b, combo@, i, g));
                assert(before[wg] == combos_part(l@, *b, spec_cs, t as int, wg));
            }
            return None;
        }
        assert(combination_fits(l@, *b, spec_cs, t as int)) by {
            assert forall|i: int, g: int| 0 <= i <= spec_cs[t as int].len() && 0 <= g < l@.len() implies
                in_i128(combos_part(l@, *b, spec_cs, t as int, g) + #[trigger] combo_part(l@, *b, spec_cs[t as int], i, g)) by {
                assert(before[g] == combos_part(l@, *b, spec_cs, t as int, g));
            }
        }
        assert forall|g: int| 0 <= g < n implies #[trigger] scores@[g] == combos_part(l@, *b, spec_cs, t + 1, g) by {
            assert(before[g] == combos_part(l@, *b, spec_cs, t as int, g));
        }
        t = t + 1;
    }
    Some(scores)
}

/// The share-weighted sum of the scores (times the square of the population
/// size), or `None` when a product or a running sum leaves the 128-bit range.
fn score_mass(l: &Vec<(Agent, AgentMetaData)>, scores: &Vec<i128>) -> (r: Option<i128>)
    requires
        scores@.len() == l@.len(),
    ensures
        r is Some <==> average_fits(scores@.map_values(|x: i128| x as int), counts_of(l@)),
        r matches Some(a) ==> a == dot(scores@.map_values(|x: i128| x as int), counts_of(l@)),
{
    let ghost xs = scores@.map_values(|x: i128| x as int);
    let ghost ys = counts_of(l@);
    let mut acc: i128 = 0;
    let mut j: usize = 0;
    while j < scores.len()
        invariant
            xs == scores@.map_values(|x: i128| x as int),
            ys == counts_of(l@),
            scores@.len() == l@.len(),
            j <= scores@.len(),
            acc == dot(xs.take(j as int), ys.take(j as int)),
            forall|a: int| 0 <= a < j ==> in_i128(#[trigger] xs[a] * ys[a]) && in_i128(dot(xs.take(a + 1), ys.take(a + 1))),
        decreases scores@.len() - j,
    {
        assert(xs.take(j + 1).drop_last() == xs.take(j as int));
        assert(ys.take(j + 1).drop_last() == ys.take(j as int));
        let c = l[j].1.count;
        match scores[j].checked_mul(c as i128) {
            Some(prod) => {
                match acc.checked_add(prod) {
                    Some(next) => {
                        acc = next;
                    },
                    None => {
                        assert(!in_i128(dot(xs.take(j + 1), ys.take(j + 1))));
                        return None;
                    },
                }
            },
            None => {
                assert(!in_i128(xs[j as int] * ys[j as int]));
                return None;
            },
        }
        j = j + 1;
    }
    assert(xs.take(j as int) == xs);
    assert(ys.take(j as int) == ys);
    Some(acc)
}

pub proof fn lemma_int_sum_counts(s: Seq<u32>)
    ensures
        int_sum(s.map_values(|x: u32| x as int)) == count_sum(s),
    decreases s.len(),
{
    if s.len() > 0 {
        assert(s.map_values(|x: u32| x as int).drop_last() == s.drop_last().map_values(|x: u32| x as int));
        lemma_int_sum_counts(s.drop_last());
    }
}

/// Scaling the scores by `n` and shifting them by `a` scales and shifts the
/// weighted sum alike.
pub proof fn lemma_dot_affine(xs: Seq<int>, fs: Seq<int>, ys: Seq<int>, n: int, a: int)
    requires
        xs.len() == fs.len() == ys.len(),
        forall|g: int| 0 <= g < xs.len() ==> #[trigger] fs[g] == xs[g] * n - a,
    ensures
        dot(fs, ys) == n * dot(xs, ys) - a * int_sum(ys),
    decreases xs.len(),
{
    if xs.len() > 0 {
        let (x, f, y) = (xs.last(), fs.last(), ys.last());
        assert(f == xs[xs.len() - 1] * n - a);
        assert forall|g: int| 0 <= g < xs.drop_last().len() implies #[trigger] fs.drop_last()[g] == xs.drop_last()[g] * n - a by {
            assert(fs.drop_last()[g] == fs[g]);
            assert(xs.drop_last()[g] == xs[g]);
        }
        lemma_dot_affine(xs.drop_last(), fs.drop_last(), ys.drop_last(), n, a);
        let (d, s) = (dot(xs.drop_last(), ys.drop_last()), int_sum(ys.drop_last()));
        assert(n * d - a * s + f * y == n * (d + x * y) - a * (s + y)) by (nonlinear_arith)
            requires
                f == x * n - a,
        ;
    }
}

/// Fitness is centred on the mean: in a consistent round record, the
/// share-weighted sum of the fitnesses is zero.
pub proof fn lemma_fitness_centered(r: RoundState)
    requires
        record_wf(r),
    ensures
        dot(record_fitnesses(r), record_counts(r)) == 0,
{
    let n = r.population as int;
    let a = r.average_score as int;
    let xs = record_scores(r);
    let ys = record_counts(r);
    let fs = record_fitnesses(r);
    assert forall|g: int| 0 <= g < xs.len() implies #[trigger] fs[g] == xs[g] * n - a by {
        assert(r.agent_data@[g].1.population == r.population);
    }
    lemma_dot_affine(xs, fs, ys, n, a);
    assert(n * a - a * n == 0) by (nonlinear_arith);
}

impl Game {
    /// Plays one round on a ledger of `total_players` individuals: each genome
    /// scores against every combination of distinct genomes of the game's
    /// size, and its fitness is its score less the population's average.
    /// Fewer than two distinct genomes is a collapse.
    pub fn play_round(&self, round_number: u32, agents: &Vec<(Agent, AgentMetaData)>, total_players: u32) -> (r: Result<RoundState, EngineError>)
        requires
            self.game_board.wf(),
            ledger_wf(agents@, total_players as nat),
        ensures
            agents@.len() < 2 <==> r == Err::<RoundState, EngineError>(EngineError::Collapsed),
            (agents@.len() >= 2 && !round_fits(agents@, self.game_board, total_players as nat))
                <==> r == Err::<RoundState, EngineError>(EngineError::OutOfRange),
            r matches Ok(rs) ==> record_of(rs, agents@, self.game_board, round_number, total_players as nat) && record_wf(rs),
    {
        let ghost l = agents@;
        let ghost b = self.game_board;
        let n = agents.len();
        if n < 2 {
            return Err(EngineError::Collapsed);
        }
        let scores = match score_all(agents, &self.game_board) {
            Some(s) => s,
            None => {
                return Err(EngineError::OutOfRange);
            },
        };
        assert(scores@.map_values(|x: i128| x as int) =~= round_scores(l, b));
        let average = match score_mass(agents, &scores) {
            Some(a) => a,
            None => {
                return Err(EngineError::OutOfRange);
            },
        };
        let pop = total_players as i128;
        let mut data: Vec<(Agent, AgentRoundData)> = Vec::new();
        let mut g: usize = 0;
        while g < n
            invariant
                n == l.len() == agents@.len() == scores@.len(),
                n >= 2,
                l == agents@,
                b == self.game_board,
                ledger_wf(l, total_players as nat),
                pop == total_players,
                average == round_average(l, b),
                forall|g: int| 0 <= g < n ==> #[trigger] scores@[g] == round_score(l, b, g),
                forall|a: int| 0 <= a < g ==> in_i128(#[trigger] round_scores(l, b)[a] * pop)
                    && in_i128(round_scores(l, b)[a] * pop - average),
                g <= n,
                data@.len() == g,
                forall|a: int| 0 <= a < g ==> (#[trigger] data@[a]).0@ == l[a].0@ && data@[a].0.wf()
                    && data@[a].1.count == l[a].1.count
                    && data@[a].1.score == round_score(l, b, a)
                    && data@[a].1.fitness == round_score(l, b, a) * pop - average
                    && data@[a].1.population == total_players,
            decreases n - g,
        {
            assert(l[g as int].0.wf());
            let fitness = match scores[g].checked_mul(pop) {
                Some(scaled) => match scaled.checked_sub(average) {
                    Some(f) => f,
                    None => {
                        assert(!in_i128(round_scores(l, b)[g as int] * pop - average));
                        assert(!round_fits(l, b, total_players as nat));
                        return Err(EngineError::OutOfRange);
                    },
                },
                None => {
                    assert(!in_i128(round_scores(l, b)[g as int] * pop));
                    assert(!round_fits(l, b, total_players as nat));
                    return Err(EngineError::OutOfRange);
                },
            };
            let entry = &agents[g];
            data.push((entry.0.duplicate(), AgentRoundData::from(entry.1.count, scores[g], fitness, total_players)));
            g = g + 1;
        }
        let rs = RoundState { round_number, population: total_players, average_score: average, agent_data: data };
        proof {
            assert forall|a: int| 0 <= a < n implies (#[trigger] rs.agent_data@[a]).1.count >= 1 by {
                assert(l[a].1.count >= 1);
            }
            assert(record_scores(rs) =~= round_scores(l, b));
            assert(record_counts(rs) =~= counts_of(l));
            assert(counts_of(l) =~= ledger_counts(l).map_values(|x: u32| x as int));
            lemma_int_sum_counts(ledger_counts(l));
        }
        Ok(rs)
    }
}

} // verus!
