//! The payoff table and the per-genome records of a population and a round.
use vstd::prelude::*;
use vstd::arithmetic::power2::*;
use crate::agent::{Agent, bits_value, lemma_bits_value_bound};

verus! {

/// Why a payoff table cannot be built.
#[derive(Clone, Copy, Debug, PartialEq, Eq)]
pub enum ConfigurationError {
    UnknownGame,
    UnsupportedPlayerCount,
    /// Some action tuple has no row, or a row without one payoff per player.
    IncompleteTable,
    /// A genome without exactly `2^memory_len` actions, or a history longer
    /// than the memory.
    GenomeLength,
}

/// The payoffs of the prisoner's dilemma for `n` players, one row per action
/// tuple, at the index that the tuple spells (cooperation is the set bit,
/// the first player's action the most significant bit).
pub open spec fn prisoners_dilemma(n: nat) -> Seq<Seq<i32>> {
    if n == 2 {
        seq![seq![0i32, 5], seq![10i32, 10], seq![1i32, 15], seq![5i32, 10]]
    } else {
        seq![
            seq![0i32, 0, 0],
            seq![0i32, 0, 1],
            seq![0i32, 1, 0],
            seq![10i32, 3, 3],
            seq![1i32, 0, 0],
            seq![3i32, 10, 3],
            seq![3i32, 3, 10],
            seq![5i32, 5, 5],
        ]
    }
}

/// A payoff table: for every tuple of `n_players` actions, one payoff per
/// player.
#[derive(Debug)]
pub struct GameBoard {
    /// Row `bits_value(actions)` holds the payoffs of the tuple `actions`.
    pub payoff_matrix: Vec<Vec<i32>>,
    pub n_players: u32,
}

impl GameBoard {
    /// Every action tuple of the right length has exactly one row of payoffs.
    pub open spec fn wf(&self) -> bool {
        &&& self.n_players >= 1
        &&& self.payoff_matrix@.len() == pow2(self.n_players as nat)
        &&& forall|i: int| 0 <= i < self.payoff_matrix@.len() ==> (#[trigger] self.payoff_matrix@[i])@.len() == self.n_players
    }

    /// The payoffs of one tuple of actions.
    pub open spec fn payoff_of(&self, actions: Seq<bool>) -> Seq<i32> {
        self.payoff_matrix@[bits_value(actions) as int]@
    }

    /// The payoff table of a named game for `n_players` players. The catalog
    /// holds the prisoner's dilemma for two and three players.
    pub fn new(game_name: String, n_players: u32) -> (r: Result<GameBoard, ConfigurationError>)
        ensures
            game_name@ != "prisoners_dilemma"@ <==> r == Err::<GameBoard, ConfigurationError>(ConfigurationError::UnknownGame),
            (game_name@ == "prisoners_dilemma"@ && n_players != 2 && n_players != 3)
                <==> r == Err::<GameBoard, ConfigurationError>(ConfigurationError::UnsupportedPlayerCount),
            r is Ok <==> (game_name@ == "prisoners_dilemma"@ && (n_players == 2 || n_players == 3)),
            r matches Ok(b) ==> b.wf() && b.n_players == n_players
                && b.payoff_matrix@.map_values(|row: Vec<i32>| row@) == prisoners_dilemma(n_players as nat),
    {
        proof {
            reveal_strlit("prisoners_dilemma");
            vstd::arithmetic::power2::lemma2_to64();
        }
        let known = "prisoners_dilemma".to_owned();
        if !(game_name == known) {
            return Err(ConfigurationError::UnknownGame);
        }
        let payoff_matrix: Vec<Vec<i32>> = if n_players == 2 {
            vec![vec![0, 5], vec![10, 10], vec![1, 15], vec![5, 10]]
        } else if n_players == 3 {
            vec![
                vec![0, 0, 0],
                vec![0, 0, 1],
                vec![0, 1, 0],
                vec![10, 3, 3],
                vec![1, 0, 0],
                vec![3, 10, 3],
                vec![3, 3, 10],
                vec![5, 5, 5],
            ]
        } else {
            return Err(ConfigurationError::UnsupportedPlayerCount);
        };
        assert(payoff_matrix@.map_values(|row: Vec<i32>| row@) =~= prisoners_dilemma(n_players as nat));
        Ok(GameBoard { payoff_matrix, n_players })
    }

    /// The payoffs of one tuple of actions, which must have one action per
    /// player.
    pub fn get_payoff(&self, action: &Vec<bool>) -> (r: Vec<i32>)
        requires
            self.wf(),
            action@.len() == self.n_players,
        ensures
            r@ == self.payoff_of(action@),
            r@.len() == self.n_players,
    {
        let mut idx: usize = 0;
        let mut i: usize = 0;
        let rows = self.payoff_matrix.len();
        proof {
            lemma_bits_value_bound(action@);
        }
        while i < action.len()
            invariant
                i <= action@.len(),
                idx == bits_value(action@.take(i as int)),
                rows == self.payoff_matrix@.len(),
                pow2(action@.len()) == rows,
            decreases action.len() - i,
        {
            let ghost prefix = action@.take(i + 1);
            assert(prefix.drop_last() == action@.take(i as int));
            assert(prefix.last() == action@[i as int]);
            proof {
                lemma_bits_value_bound(prefix);
                if prefix.len() < action@.len() {
                    lemma_pow2_strictly_increases(prefix.len(), action@.len());
                }
            }
            let bit: usize = if action[i] { 1 } else { 0 };
            assert(bits_value(prefix) == 2 * idx + bit);
            idx = idx * 2 + bit;
            i = i + 1;
        }
        assert(action@.take(i as int) == action@);
        self.payoff_matrix[idx].clone()
    }
}

/// What a genome holds in a population: how many individuals carry it, out of
/// how many. Its share of the population is `count / population`.
#[derive(Clone, Copy, Debug)]
pub struct AgentMetaData {
    pub count: u32,
    pub population: u32,
}

impl AgentMetaData {
    /// An empty record, before any individual is counted.
    pub fn new() -> (r: AgentMetaData)
        ensures
            r.count == 0,
            r.population == 0,
    {
        AgentMetaData { count: 0, population: 0 }
    }
}

/// What a genome scored in one round, as exact fractions over the population
/// size `N = population`: its share is `count / N`, its score `score / N` and
/// its fitness `fitness / N²`.
#[derive(Clone, Copy, Debug)]
pub struct AgentRoundData {
    pub count: u32,
    pub score: i128,
    pub fitness: i128,
    pub population: u32,
}

impl AgentRoundData {
    pub fn from(count: u32, score: i128, fitness: i128, population: u32) -> (r: AgentRoundData)
        ensures
            r.count == count,
            r.score == score,
            r.fitness == fitness,
            r.population == population,
    {
        AgentRoundData { count, score, fitness, population }
    }
}

/// One round's record: each distinct genome with its data, in the order of
/// the population it was computed from, and the average score
/// `average_score / N²` with `N = population`.
#[derive(Debug)]
pub struct RoundState {
    pub round_number: u32,
    pub population: u32,
    pub average_score: i128,
    pub agent_data: Vec<(Agent, AgentRoundData)>,
}

impl RoundState {
    /// A round with no genome in it yet.
    pub fn new(round_number: u32) -> (r: RoundState)
        ensures
            r.round_number == round_number,
            r.population == 0,
            r.average_score == 0,
            r.agent_data@.len() == 0,
    {
        RoundState { round_number, population: 0, average_score: 0, agent_data: Vec::new() }
    }
}

} // verus!
