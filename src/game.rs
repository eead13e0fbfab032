//! The simulation: a game board, the rules of selection, and the rounds
//! played so far; one generation follows another by resampling with
//! mutation.
use vstd::prelude::*;
use vstd::arithmetic::power2::*;
use crate::agent::{Agent, MutationDraw, action_for, advanced_history, mutated_genome, lemma_memory_bound};
use crate::types::{AgentMetaData, AgentRoundData, ConfigurationError, GameBoard, RoundState};
use crate::ledger::{ledger_wf, ledger_of, same_ledger};
use crate::round::{EngineError, record_wf, record_of, round_fits, lemma_same_round, lemma_same_record};
use crate::selection::{kept_weights, weight_total, weights_fit, filter_fits};
use crate::outside::{draw_weighted, weight_sum};

verus! {

/// A simulation on one payoff table. The replacement rate is
/// `d = death_numerator / death_denominator`.
#[derive(Debug)]
pub struct Game {
    pub rounds: Vec<RoundState>,
    pub game_board: GameBoard,
    pub is_test: bool,
    pub debug: bool,
    pub death_numerator: u32,
    pub death_denominator: u32,
}

/// How a run ended.
#[derive(Debug)]
pub enum RunOutcome {
    /// Every round of the budget was played.
    Completed(u32),
    /// At the given round fewer than two genomes remained, or no selection
    /// weight was left; the ledger is the last population.
    Collapsed { round: u32, ledger: Vec<(Agent, AgentMetaData)> },
    /// At the given round an exact value left the 128-bit range; the ledger
    /// is that round's population.
    OutOfRange { round: u32, ledger: Vec<(Agent, AgentMetaData)> },
}

/// The draws of one generation leave every genome as it is.
pub open spec fn no_mutation(draws: Seq<MutationDraw>) -> bool {
    forall|i: int| 0 <= i < draws.len() ==> (#[trigger] draws[i]).point is None && !draws[i].duplicate && draws[i].split is None
}

/// Resampling without mutation adds no genome: a draw that fires no
/// operator leaves the genome unchanged.
pub proof fn lemma_unmutated_genome(genome: Seq<bool>, draw: MutationDraw)
    requires
        draw.point is None,
        !draw.duplicate,
        draw.split is None,
    ensures
        mutated_genome(genome, draw) == genome,
{
}

/// The history of the genome at `g` of a round after a round against the
/// genome at `j`: its own action, then the opponent's.
pub open spec fn history_against(d: Seq<(Agent, AgentRoundData)>, g: int, j: int) -> Seq<bool> {
    advanced_history(
        d[g].0.history@,
        seq![action_for(d[g].0.genome@, d[g].0.history@), action_for(d[j].0.genome@, d[j].0.history@)],
        d[g].0.memory_len as nat,
    )
}

/// `history` is that of the genome at `g` after a round against some other
/// genome of the round.
pub open spec fn advanced_against_other(d: Seq<(Agent, AgentRoundData)>, g: int, history: Seq<bool>) -> bool {
    exists|j: int| 0 <= j < d.len() && j != g && history == #[trigger] history_against(d, g, j)
}

/// A sum of weights is at least each of them.
proof fn lemma_weight_sum_at_least(w: Seq<u128>, i: int)
    requires
        0 <= i < w.len(),
    ensures
        weight_sum(w) >= w[i],
    decreases w.len(),
{
    if i < w.len() - 1 {
        assert(w.drop_last()[i] == w[i]);
        lemma_weight_sum_at_least(w.drop_last(), i);
    } else {
        lemma_weight_sum_nonneg(w.drop_last());
    }
}

proof fn lemma_weight_sum_nonneg(w: Seq<u128>)
    ensures
        weight_sum(w) >= 0,
    decreases w.len(),
{
    if w.len() > 0 {
        lemma_weight_sum_nonneg(w.drop_last());
    }
}

/// The weights for drawing an opponent of the genome at `g`: every other
/// genome by its count, `g` itself not at all.
fn opponent_weights(round_data: &RoundState, g: usize) -> (w: Vec<u128>)
    requires
        g < round_data.agent_data@.len(),
        round_data.agent_data@.len() >= 2,
        forall|j: int| 0 <= j < round_data.agent_data@.len() ==> (#[trigger] round_data.agent_data@[j]).1.count >= 1,
    ensures
        w@.len() == round_data.agent_data@.len(),
        w@[g as int] == 0,
        forall|j: int| 0 <= j < w@.len() && j != g ==> #[trigger] w@[j] == round_data.agent_data@[j].1.count,
        0 < weight_sum(w@) <= u128::MAX,
{
    let n = round_data.agent_data.len();
    let mut w: Vec<u128> = Vec::new();
    let mut j: usize = 0;
    while j < n
        invariant
            n == round_data.agent_data@.len(),
            g < n,
            j <= n,
            w@.len() == j,
            forall|a: int| 0 <= a < j && a != g ==> #[trigger] w@[a] == round_data.agent_data@[a].1.count,
            j > g ==> w@[g as int] == 0,
            0 <= weight_sum(w@) <= j * 0xffff_ffff,
        decreases n - j,
    {
        let c: u128 = if j == g { 0 } else { round_data.agent_data[j].1.count as u128 };
        let ghost before = w@;
        w.push(c);
        assert(w@.drop_last() == before);
        j = j + 1;
    }
    let other: usize = if g == 0 { 1 } else { 0 };
    assert(round_data.agent_data@[other as int].1.count >= 1);
    proof {
        lemma_weight_sum_at_least(w@, other as int);
        assert(n * 0xffff_ffff <= u128::MAX) by (nonlinear_arith)
            requires
                n <= usize::MAX,
                usize::MAX <= 0xffff_ffff_ffff_ffff,
        ;
    }
    w
}

/// The individuals that carry a round's genomes into resampling: each
/// genome's history gains the pair of its own action and that of one
/// opponent, drawn from the other genomes by population share. A lone
/// genome has no opponent and keeps its history.
fn advance_histories(round_data: &RoundState) -> (r: Vec<Agent>)
    requires
        forall|j: int| 0 <= j < round_data.agent_data@.len() ==> (#[trigger] round_data.agent_data@[j]).1.count >= 1
            && round_data.agent_data@[j].0.wf(),
    ensures
        r@.len() == round_data.agent_data@.len(),
        forall|g: int| 0 <= g < r@.len() ==> (#[trigger] r@[g]).wf()
            && r@[g].genome@ == round_data.agent_data@[g].0.genome@
            && r@[g].memory_len == round_data.agent_data@[g].0.memory_len,
        round_data.agent_data@.len() >= 2 ==> forall|g: int| 0 <= g < r@.len() ==> advanced_against_other(round_data.agent_data@, g, (#[trigger] r@[g]).history@),
        round_data.agent_data@.len() < 2 ==> forall|g: int| 0 <= g < r@.len() ==> (#[trigger] r@[g]).history@ == round_data.agent_data@[g].0.history@,
{
    let n = round_data.agent_data.len();
    let ghost d = round_data.agent_data@;
    let mut parents: Vec<Agent> = Vec::new();
    if n < 2 {
        let mut g: usize = 0;
        while g < n
            invariant
                n == d.len() < 2,
                d == round_data.agent_data@,
                forall|j: int| 0 <= j < d.len() ==> (#[trigger] d[j]).1.count >= 1 && d[j].0.wf(),
                g <= n,
                parents@.len() == g,
                forall|a: int| 0 <= a < g ==> (#[trigger] parents@[a]).wf()
                    && parents@[a].genome@ == d[a].0.genome@
                    && parents@[a].memory_len == d[a].0.memory_len
                    && parents@[a].history@ == d[a].0.history@,
            decreases n - g,
        {
            parents.push(round_data.agent_data[g].0.duplicate());
            g = g + 1;
        }
        return parents;
    }
    let mut g: usize = 0;
    while g < n
        invariant
            n == d.len(),
            n >= 2,
            d == round_data.agent_data@,
            forall|j: int| 0 <= j < d.len() ==> (#[trigger] d[j]).1.count >= 1 && d[j].0.wf(),
            g <= n,
            parents@.len() == g,
            forall|a: int| 0 <= a < g ==> (#[trigger] parents@[a]).wf()
                && parents@[a].genome@ == d[a].0.genome@
                && parents@[a].memory_len == d[a].0.memory_len,
            forall|a: int| 0 <= a < g ==> advanced_against_other(d, a, (#[trigger] parents@[a]).history@),
        decreases n - g,
    {
        let agent = &round_data.agent_data[g].0;
        let own = agent.map_history_to_action();
        let weights = opponent_weights(round_data, g);
        let opp = draw_weighted(&weights);
        assert(opp != g);
        let theirs = round_data.agent_data[opp].0.map_history_to_action();
        let mut parent = agent.duplicate();
        let pair = [own, theirs];
        assert(pair@ == seq![own, theirs]);
        parent.add_memory(pair);
        let ghost before = parents@;
        parents.push(parent);
        assert forall|a: int| 0 <= a < g + 1 implies advanced_against_other(d, a, (#[trigger] parents@[a]).history@) by {
            if a < g {
                assert(parents@[a] == before[a]);
            } else {
                assert(parents@[a].history@ == history_against(d, a, opp as int));
            }
        }
        g = g + 1;
    }
    parents
}

impl Game {
    /// The replacement rate lies in `(0, 1]` and the payoff table is complete.
    pub open spec fn wf(&self) -> bool {
        &&& self.game_board.wf()
        &&& 0 < self.death_numerator <= self.death_denominator
    }

    /// A simulation on a payoff table, with no round played and the
    /// replacement rate `d = 1 / 1000`. A table without exactly one row of
    /// one payoff per player for every action tuple is refused.
    pub fn new(game_board: GameBoard, is_test: bool, debug: bool) -> (r: Result<Game, ConfigurationError>)
        ensures
            r is Ok <==> game_board.wf(),
            r is Err ==> r == Err::<Game, ConfigurationError>(ConfigurationError::IncompleteTable),
            r matches Ok(g) ==> g.wf() && g.game_board == game_board && g.rounds@.len() == 0
                && g.is_test == is_test && g.debug == debug
                && g.death_numerator == 1 && g.death_denominator == 1000,
    {
        let n = game_board.n_players;
        let rows = game_board.payoff_matrix.len();
        if n == 0 || n >= 64 {
            proof {
                if n >= 64 && game_board.wf() {
                    lemma_memory_bound(n as nat);
                }
            }
            return Err(ConfigurationError::IncompleteTable);
        }
        let mut size: u128 = 1;
        let mut e: u32 = 0;
        proof {
            lemma2_to64();
        }
        while e < n
            invariant
                e <= n < 64,
                size == pow2(e as nat),
                pow2(64) == 0x10000000000000000nat,
            decreases n - e,
        {
            proof {
                lemma_pow2_unfold((e + 1) as nat);
                if e + 1 < 64 {
                    lemma_pow2_strictly_increases((e + 1) as nat, 64);
                }
            }
            size = size * 2;
            e = e + 1;
        }
        if rows as u128 != size {
            return Err(ConfigurationError::IncompleteTable);
        }
        let mut i: usize = 0;
        while i < rows
            invariant
                i <= rows == game_board.payoff_matrix@.len(),
                n == game_board.n_players,
                forall|a: int| 0 <= a < i ==> (#[trigger] game_board.payoff_matrix@[a])@.len() == n,
            decreases rows - i,
        {
            if game_board.payoff_matrix[i].len() != n as usize {
                return Err(ConfigurationError::IncompleteTable);
            }
            i = i + 1;
        }
        Ok(Game { rounds: Vec::new(), game_board, is_test, debug, death_numerator: 1, death_denominator: 1000 })
    }

    /// Applies each individual's drawn mutations to it.
    pub fn apply_mutations(&self, agents: &mut Vec<Agent>, draws: &Vec<MutationDraw>)
        requires
            old(agents)@.len() == draws@.len(),
            forall|i: int| 0 <= i < old(agents)@.len() ==> (#[trigger] old(agents)@[i]).wf(),
        ensures
            final(agents)@.len() == old(agents)@.len(),
            forall|i: int| 0 <= i < final(agents)@.len() ==> (#[trigger] final(agents)@[i]).wf()
                && final(agents)@[i].genome@ == mutated_genome(old(agents)@[i].genome@, draws@[i])
                && final(agents)@[i].history@ == old(agents)@[i].history@,
    {
        let n = agents.len();
        let mut i: usize = 0;
        while i < n
            invariant
                n == agents@.len() == old(agents)@.len() == draws@.len(),
                i <= n,
                forall|a: int| 0 <= a < n ==> (#[trigger] agents@[a]).wf(),
                forall|a: int| 0 <= a < i ==> (#[trigger] agents@[a]).genome@ == mutated_genome(old(agents)@[a].genome@, draws@[a]),
                forall|a: int| i <= a < n ==> (#[trigger] agents@[a]).genome@ == old(agents)@[a].genome@,
                forall|a: int| 0 <= a < n ==> (#[trigger] agents@[a]).history@ == old(agents)@[a].history@,
            decreases n - i,
        {
            let mut agent = agents[i].duplicate();
            agent.mutate(draws[i]);
            agents.set(i, agent);
            i = i + 1;
        }
    }
}

impl Game {
    /// The next generation from a round's record: `n_agents` individuals
    /// drawn with replacement by the kept selection weights (after each
    /// genome's history gains this round's actions), each then mutated by its
    /// draw, grouped into a ledger. Every genome of the result is a drawn
    /// genome after its mutation; without mutation it is one of the round's.
    #[verifier::rlimit(40)]
    pub fn sample_new_agents(&mut self, round_data: &RoundState, n_agents: u32, draws: &Vec<MutationDraw>)
        -> (r: Result<Vec<(Agent, AgentMetaData)>, EngineError>)
        requires
            record_wf(*round_data),
            forall|j: int| 0 <= j < round_data.agent_data@.len() ==> (#[trigger] round_data.agent_data@[j]).0.wf(),
            draws@.len() == n_agents,
        ensures
            *final(self) == *old(self),
            r == Err::<Vec<(Agent, AgentMetaData)>, EngineError>(EngineError::Collapsed)
                <==> (weights_fit(old(self).death_numerator, *round_data) && weight_total(old(self).death_numerator, *round_data) <= 0),
            r == Err::<Vec<(Agent, AgentMetaData)>, EngineError>(EngineError::OutOfRange)
                <==> (!weights_fit(old(self).death_numerator, *round_data)
                    || (weight_total(old(self).death_numerator, *round_data) > 0 && !filter_fits(old(self).death_numerator, *round_data))),
            r matches Ok(l) ==> ledger_wf(l@, n_agents as nat)
                && forall|k: int| 0 <= k < l@.len() ==> exists|i: int, g: int|
                    0 <= i < n_agents && 0 <= g < round_data.agent_data@.len()
                    && kept_weights(old(self).death_numerator, *round_data)[g] > 0
                    && (#[trigger] l@[k]).0.genome@ == mutated_genome(round_data.agent_data@[g].0.genome@, draws@[i])
                    && (round_data.agent_data@.len() >= 2 ==> advanced_against_other(round_data.agent_data@, g, l@[k].0.history@))
                    && (round_data.agent_data@.len() < 2 ==> l@[k].0.history@ == round_data.agent_data@[g].0.history@),
            r matches Ok(l) ==> no_mutation(draws@) ==> forall|k: int| 0 <= k < l@.len() ==> exists|g: int|
                0 <= g < round_data.agent_data@.len() && (#[trigger] l@[k]).0.genome@ == round_data.agent_data@[g].0.genome@,
    {
        let ghost d = round_data.agent_data@;
        let ghost ks = kept_weights(self.death_numerator, *round_data);
        let weights = match self.compute_next_probability(round_data) {
            Ok(w) => w,
            Err(e) => {
                return Err(e);
            },
        };
        proof {
            assert forall|j: int| 0 <= j < d.len() implies (#[trigger] d[j]).1.count >= 1 && d[j].0.wf() by {
                assert(d[j].1.count >= 1);
            }
        }
        let parents = advance_histories(round_data);
        let mut drawn: Vec<Agent> = Vec::new();
        let ghost mut src: Seq<int> = Seq::empty();
        let mut i: u32 = 0;
        while i < n_agents
            invariant
                i <= n_agents,
                d == round_data.agent_data@,
                weights@.len() == d.len() == parents@.len(),
                forall|g: int| 0 <= g < weights@.len() ==> #[trigger] weights@[g] == ks[g],
                0 < weight_sum(weights@) <= u128::MAX,
                forall|g: int| 0 <= g < parents@.len() ==> (#[trigger] parents@[g]).wf() && parents@[g].genome@ == d[g].0.genome@,
                d.len() >= 2 ==> forall|g: int| 0 <= g < parents@.len() ==> advanced_against_other(d, g, (#[trigger] parents@[g]).history@),
                d.len() < 2 ==> forall|g: int| 0 <= g < parents@.len() ==> (#[trigger] parents@[g]).history@ == d[g].0.history@,
                drawn@.len() == i,
                src.len() == i,
                forall|a: int| 0 <= a < i ==> 0 <= #[trigger] src[a] < d.len() && ks[src[a]] > 0,
                forall|a: int| 0 <= a < i ==> (#[trigger] drawn@[a]).wf() && drawn@[a].genome@ == d[src[a]].0.genome@
                    && drawn@[a].history@ == parents@[src[a]].history@,
            decreases n_agents - i,
        {
            let idx = draw_weighted(&weights);
            drawn.push(parents[idx].duplicate());
            proof {
                src = src.push(idx as int);
            }
            i = i + 1;
        }
        let ghost before = drawn@;
        let ghost src_all = src;
        self.apply_mutations(&mut drawn, draws);
        assert forall|t: int| 0 <= t < drawn@.len() implies (#[trigger] drawn@[t]).wf() by {}
        let l = Game::agents_to_hashmap(&drawn);
        assert forall|k: int| 0 <= k < l@.len() implies exists|i: int, g: int|
            0 <= i < n_agents && 0 <= g < d.len() && ks[g] > 0
            && (#[trigger] l@[k]).0.genome@ == mutated_genome(d[g].0.genome@, draws@[i])
            && (d.len() >= 2 ==> advanced_against_other(d, g, l@[k].0.history@))
            && (d.len() < 2 ==> l@[k].0.history@ == d[g].0.history@) by {
            assert(crate::ledger::stands_for(l@[k].0, drawn@));
            let t = choose|t: int| 0 <= t < drawn@.len() && l@[k].0@ == drawn@[t]@;
            assert(drawn@[t].genome@ == mutated_genome(before[t].genome@, draws@[t]));
            assert(before[t].genome@ == d[src[t]].0.genome@);
            assert(drawn@[t].history@ == parents@[src[t]].history@);
        }
        assert(no_mutation(draws@) ==> forall|k: int| 0 <= k < l@.len() ==> exists|g: int|
            0 <= g < d.len() && (#[trigger] l@[k]).0.genome@ == d[g].0.genome@) by {
            if no_mutation(draws@) {
                assert forall|k: int| 0 <= k < l@.len() implies exists|g: int|
                    0 <= g < d.len() && (#[trigger] l@[k]).0.genome@ == d[g].0.genome@ by {
                    let (i, g) = choose|i: int, g: int| 0 <= i < n_agents && 0 <= g < d.len() && ks[g] > 0
                        && (#[trigger] l@[k]).0.genome@ == mutated_genome(d[g].0.genome@, draws@[i])
                        && (d.len() >= 2 ==> advanced_against_other(d, g, l@[k].0.history@))
                        && (d.len() < 2 ==> l@[k].0.history@ == d[g].0.history@);
                    assert(draws@[i].point is None && !draws@[i].duplicate && draws@[i].split is None);
                    lemma_unmutated_genome(d[g].0.genome@, draws@[i]);
                }
            }
        }
        Ok(l)
    }
}

impl Game {
    /// Plays up to `n_rounds` rounds from an initial population, recording
    /// each round. Round `i` uses the mutation draws `draws[i]`, one per
    /// individual. The run stops early, at round `i`, when that round's
    /// population has fewer than two genomes, when no selection weight is
    /// left or fewer than two genomes are drawn, or when an exact value leaves
    /// the 128-bit range. Round 0 is played on the ledger of the initial
    /// population before any random draw.
    pub fn run(&mut self, n_rounds: u32, agents: Vec<Agent>, draws: &Vec<Vec<MutationDraw>>) -> (r: RunOutcome)
        requires
            old(self).wf(),
            agents@.len() <= u32::MAX,
            forall|t: int| 0 <= t < agents@.len() ==> (#[trigger] agents@[t]).wf(),
            draws@.len() >= n_rounds,
            forall|i: int| 0 <= i < draws@.len() ==> (#[trigger] draws@[i])@.len() == agents@.len(),
        ensures
            final(self).wf(),
            final(self).game_board == old(self).game_board,
            final(self).death_numerator == old(self).death_numerator,
            final(self).rounds@.len() >= old(self).rounds@.len(),
            final(self).rounds@.subrange(0, old(self).rounds@.len() as int) == old(self).rounds@,
            forall|i: int| old(self).rounds@.len() <= i < final(self).rounds@.len() ==>
                record_wf(#[trigger] final(self).rounds@[i])
                && final(self).rounds@[i].round_number == i - old(self).rounds@.len()
                && final(self).rounds@[i].population == agents@.len(),
            n_rounds == 0 ==> r matches RunOutcome::Completed(0),
            n_rounds >= 1 && ledger_of(agents@).len() < 2 ==>
                (r matches RunOutcome::Collapsed { round, ledger } && round == 0 && same_ledger(ledger@, ledger_of(agents@)))
                && final(self).rounds@ == old(self).rounds@,
            n_rounds >= 1 && ledger_of(agents@).len() >= 2 && !round_fits(ledger_of(agents@), old(self).game_board, agents@.len() as nat) ==>
                (r matches RunOutcome::OutOfRange { round, ledger } && round == 0 && same_ledger(ledger@, ledger_of(agents@)))
                && final(self).rounds@ == old(self).rounds@,
            n_rounds >= 1 && ledger_of(agents@).len() >= 2 && round_fits(ledger_of(agents@), old(self).game_board, agents@.len() as nat) ==>
                final(self).rounds@.len() > old(self).rounds@.len()
                && record_of(final(self).rounds@[old(self).rounds@.len() as int], ledger_of(agents@), old(self).game_board, 0, agents@.len() as nat),
            r matches RunOutcome::Completed(k) ==> k == n_rounds
                && final(self).rounds@.len() == old(self).rounds@.len() + n_rounds,
            r matches RunOutcome::Collapsed { round, ledger } ==> round < n_rounds
                && ledger_wf(ledger@, agents@.len() as nat)
                && ((final(self).rounds@.len() == old(self).rounds@.len() + round && ledger@.len() < 2)
                    || (final(self).rounds@.len() == old(self).rounds@.len() + round + 1
                        && (ledger@.len() < 2
                            || (weights_fit(final(self).death_numerator, final(self).rounds@.last())
                                && weight_total(final(self).death_numerator, final(self).rounds@.last()) <= 0)))),
            r matches RunOutcome::OutOfRange { round, ledger } ==> round < n_rounds
                && ledger_wf(ledger@, agents@.len() as nat)
                && ((final(self).rounds@.len() == old(self).rounds@.len() + round
                        && ledger@.len() >= 2 && !round_fits(ledger@, final(self).game_board, agents@.len() as nat))
                    || (final(self).rounds@.len() == old(self).rounds@.len() + round + 1
                        && (!weights_fit(final(self).death_numerator, final(self).rounds@.last())
                            || (weight_total(final(self).death_numerator, final(self).rounds@.last()) > 0
                                && !filter_fits(final(self).death_numerator, final(self).rounds@.last()))))),
    {
        let ghost start = self.rounds@;
        let ghost first = ledger_of(agents@);
        let ghost b = self.game_board;
        let population = agents.len() as u32;
        let mut ledger = Game::agents_to_hashmap(&agents);
        let genomes = ledger.len();
        proof {
            assert(first.len() == genomes);
            lemma_same_round(ledger@, first, b, population as nat);
        }
        let mut i: u32 = 0;
        while i < n_rounds
            invariant
                self.wf(),
                self.game_board == old(self).game_board,
                b == old(self).game_board,
                self.death_numerator == old(self).death_numerator,
                start == old(self).rounds@,
                first == ledger_of(agents@),
                population == agents@.len(),
                draws@.len() >= n_rounds,
                forall|i: int| 0 <= i < draws@.len() ==> (#[trigger] draws@[i])@.len() == agents@.len(),
                i <= n_rounds,
                ledger_wf(ledger@, population as nat),
                i == 0 ==> same_ledger(ledger@, first),
                i > 0 ==> ledger@.len() >= 2,
                i == 0 ==> round_fits(ledger@, b, population as nat) == round_fits(first, b, population as nat),
                i > 0 ==> first.len() >= 2 && round_fits(first, b, population as nat)
                    && record_of(self.rounds@[start.len() as int], first, b, 0, population as nat),
                self.rounds@.len() == start.len() + i,
                self.rounds@.subrange(0, start.len() as int) == start,
                forall|a: int| start.len() <= a < self.rounds@.len() ==>
                    record_wf(#[trigger] self.rounds@[a])
                    && self.rounds@[a].round_number == a - start.len()
                    && self.rounds@[a].population == population,
            decreases n_rounds - i,
        {
            let record = match self.play_round(i, &ledger, population) {
                Ok(rs) => rs,
                Err(EngineError::Collapsed) => {
                    assert(self.rounds@ =~= start) by {
                        assert(i == 0);
                    }
                    return RunOutcome::Collapsed { round: i, ledger };
                },
                Err(EngineError::OutOfRange) => {
                    assert(i == 0 ==> self.rounds@ =~= start);
                    return RunOutcome::OutOfRange { round: i, ledger };
                },
            };
            let genomes = ledger.len();
            proof {
                if i == 0 {
                    assert(first.len() == genomes);
                    lemma_same_record(record, ledger@, first, b, 0, population as nat);
                }
            }
            assert forall|j: int| 0 <= j < record.agent_data@.len() implies (#[trigger] record.agent_data@[j]).0.wf() by {}
            let next = self.sample_new_agents(&record, population, &draws[i as usize]);
            let ghost before = self.rounds@;
            self.rounds.push(record);
            assert(self.rounds@.subrange(0, start.len() as int) == before.subrange(0, start.len() as int));
            assert(self.rounds@[start.len() as int] == if i == 0 { record } else { before[start.len() as int] });
            match next {
                Ok(l) => {
                    if l.len() < 2 {
                        return RunOutcome::Collapsed { round: i, ledger: l };
                    }
                    ledger = l;
                },
                Err(EngineError::Collapsed) => {
                    return RunOutcome::Collapsed { round: i, ledger };
                },
                Err(EngineError::OutOfRange) => {
                    return RunOutcome::OutOfRange { round: i, ledger };
                },
            }
            i = i + 1;
        }
        RunOutcome::Completed(n_rounds)
    }
}

} // verus!
