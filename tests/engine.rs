use approx::AbsDiffEq;
use evo_games::agent::{Agent, MutationDraw};
use evo_games::game::{Game, RunOutcome};
use evo_games::round::EngineError;
use evo_games::types::{AgentMetaData, AgentRoundData, ConfigurationError, GameBoard, RoundState};

fn board(n: u32) -> GameBoard {
    GameBoard::new("prisoners_dilemma".to_string(), n).unwrap()
}

fn game(n: u32) -> Game {
    Game::new(board(n), true, false).unwrap()
}

/// Cooperates always, defects always, and cooperates unless the last bit
/// was set (it was).
fn three_genomes() -> Vec<Agent> {
    vec![
        Agent::new(vec![true, true], vec![], 1),
        Agent::new(vec![false, false], vec![], 1),
        Agent::new(vec![true, false], vec![true], 1),
    ]
}

#[test]
fn board_catalog_and_errors() {
    let b = board(2);
    assert_eq!(b.get_payoff(&vec![true, true]), vec![5, 10]);
    assert_eq!(b.get_payoff(&vec![true, false]), vec![1, 15]);
    assert_eq!(b.get_payoff(&vec![false, true]), vec![10, 10]);
    assert_eq!(b.get_payoff(&vec![false, false]), vec![0, 5]);
    let b3 = board(3);
    assert_eq!(b3.get_payoff(&vec![true, true, false]), vec![3, 3, 10]);
    assert_eq!(b3.get_payoff(&vec![false, false, false]), vec![0, 0, 0]);
    assert_eq!(GameBoard::new("chicken".to_string(), 2).unwrap_err(), ConfigurationError::UnknownGame);
    assert_eq!(
        GameBoard::new("prisoners_dilemma".to_string(), 4).unwrap_err(),
        ConfigurationError::UnsupportedPlayerCount
    );
}

#[test]
fn game_refuses_incomplete_table() {
    let missing = GameBoard { payoff_matrix: vec![vec![0, 5], vec![10, 10], vec![1, 15]], n_players: 2 };
    assert_eq!(Game::new(missing, false, false).unwrap_err(), ConfigurationError::IncompleteTable);
    let short_row = GameBoard { payoff_matrix: vec![vec![0, 5], vec![10], vec![1, 15], vec![5, 10]], n_players: 2 };
    assert_eq!(Game::new(short_row, false, false).unwrap_err(), ConfigurationError::IncompleteTable);
    let g = game(2);
    assert_eq!((g.death_numerator, g.death_denominator), (1, 1000));
    assert!(g.rounds.is_empty());
}

#[test]
fn ledger_counts_sum_to_population() {
    let mut agents = three_genomes();
    agents.push(Agent::new(vec![true, true], vec![true], 1));
    agents.push(Agent::new(vec![false, false], vec![false], 1));
    let ledger = Game::agents_to_hashmap(&agents);
    assert_eq!(ledger.len(), 3);
    let counts: Vec<u32> = ledger.iter().map(|e| e.1.count).collect();
    // bit order: 00, 10, 11
    assert_eq!(counts, vec![2, 1, 2]);
    let genomes: Vec<Vec<bool>> = ledger.iter().map(|e| e.0.genome.clone()).collect();
    assert_eq!(genomes, vec![vec![false, false], vec![true, false], vec![true, true]]);
    assert!(ledger.iter().all(|e| e.1.population == 5));
    let share_sum: f64 = ledger.iter().map(|e| e.1.count as f64 / e.1.population as f64).sum();
    assert!(share_sum.abs_diff_eq(&1.0, 1e-6));
    assert!(Game::agents_to_hashmap(&vec![]).is_empty());
}

#[test]
fn scenario_three_genomes_round_zero() {
    let g = game(2);
    let ledger = Game::agents_to_hashmap(&three_genomes());
    let rs = g.play_round(0, &ledger, 3).unwrap();
    // bit order 00 (F), 10 (F), 11 (T); pairs (00,10): (0,5), (00,11): (10,10), (10,11): (10,10)
    let scores: Vec<i128> = rs.agent_data.iter().map(|e| e.1.score).collect();
    assert_eq!(scores, vec![10, 15, 20]);
    assert_eq!(rs.average_score, 45);
    let fitness: Vec<i128> = rs.agent_data.iter().map(|e| e.1.fitness).collect();
    assert_eq!(fitness, vec![-15, 0, 15]);
    // the same in real terms: score / N and fitness / N^2
    let expected_scores = [10.0 / 3.0, 5.0, 20.0 / 3.0];
    let average = 5.0;
    for (e, s) in rs.agent_data.iter().zip(expected_scores.iter()) {
        let score = e.1.score as f64 / 3.0;
        let fit = e.1.fitness as f64 / 9.0;
        assert!(score.abs_diff_eq(s, 1e-9));
        assert!(fit.abs_diff_eq(&(s - average), 1e-9));
    }
}

#[test]
fn average_is_share_weighted_score() {
    let g = game(2);
    let mut agents = three_genomes();
    agents.push(Agent::new(vec![true, false], vec![false], 1));
    let ledger = Game::agents_to_hashmap(&agents);
    let rs = g.play_round(0, &ledger, 4).unwrap();
    let recomputed: i128 = rs.agent_data.iter().map(|e| e.1.score * e.1.count as i128).sum();
    assert_eq!(rs.average_score, recomputed);
    let centred: i128 = rs.agent_data.iter().map(|e| e.1.fitness * e.1.count as i128).sum();
    assert_eq!(centred, 0);
}

#[test]
fn three_player_round() {
    let g = game(3);
    let ledger = Game::agents_to_hashmap(&three_genomes());
    let rs = g.play_round(1, &ledger, 3).unwrap();
    // one combination (F, F, T): payoffs (0, 0, 1), each weighted by 2
    let scores: Vec<i128> = rs.agent_data.iter().map(|e| e.1.score).collect();
    assert_eq!(scores, vec![0, 0, 2]);
    assert_eq!(rs.average_score, 2);
    assert_eq!(rs.round_number, 1);
    let centred: i128 = rs.agent_data.iter().map(|e| e.1.fitness * e.1.count as i128).sum();
    assert_eq!(centred, 0);
}

#[test]
fn selection_weights_filter_and_normalise() {
    let g = game(2);
    let ledger = Game::agents_to_hashmap(&three_genomes());
    let rs = g.play_round(0, &ledger, 3).unwrap();
    // raw weights -5, 15, 35 with total 45; a 1/3 share needs 3w >= 45
    let w = g.compute_next_probability(&rs).unwrap();
    assert_eq!(w, vec![0, 15, 35]);
    let total: u128 = w.iter().sum();
    let normalised: f64 = w.iter().map(|x| *x as f64 / total as f64).sum();
    assert!(normalised.abs_diff_eq(&1.0, 1e-4));
}

#[test]
fn selection_collapses_without_positive_weight() {
    let g = game(2);
    let mut rs = RoundState::new(0);
    rs.population = 2;
    rs.agent_data.push((Agent::new(vec![true], vec![], 0), AgentRoundData::from(1, 0, 0, 2)));
    rs.agent_data.push((Agent::new(vec![false], vec![], 0), AgentRoundData::from(1, 0, 0, 2)));
    assert_eq!(g.compute_next_probability(&rs).unwrap_err(), EngineError::Collapsed);
}

#[test]
fn single_genome_collapses() {
    let g = game(2);
    let agents = vec![Agent::new(vec![true], vec![], 0), Agent::new(vec![true], vec![], 0)];
    let ledger = Game::agents_to_hashmap(&agents);
    assert_eq!(g.play_round(0, &ledger, 2).unwrap_err(), EngineError::Collapsed);
    let mut g = game(2);
    let draws = vec![vec![MutationDraw::none(); 2]; 3];
    match g.run(3, agents, &draws) {
        RunOutcome::Collapsed { round, ledger } => {
            assert_eq!(round, 0);
            assert_eq!(ledger.len(), 1);
            assert_eq!(ledger[0].1.count, 2);
        },
        other => panic!("expected a collapse, got {:?}", other),
    }
    assert!(g.rounds.is_empty());
}

#[test]
fn resampling_without_mutation_keeps_genomes() {
    let mut g = game(2);
    let mut agents = three_genomes();
    agents.push(Agent::new(vec![false, false], vec![true], 1));
    let ledger = Game::agents_to_hashmap(&agents);
    let rs = g.play_round(0, &ledger, 4).unwrap();
    let before: Vec<Vec<bool>> = rs.agent_data.iter().map(|e| e.0.genome.clone()).collect();
    let next = g.sample_new_agents(&rs, 4, &vec![MutationDraw::none(); 4]).unwrap();
    let total: u32 = next.iter().map(|e| e.1.count).sum();
    assert_eq!(total, 4);
    for e in next.iter() {
        assert!(before.contains(&e.0.genome));
        assert_eq!(e.1.population, 4);
    }
}

#[test]
fn resampling_applies_mutation_draws() {
    let mut g = game(2);
    let ledger = Game::agents_to_hashmap(&three_genomes());
    let rs = g.play_round(0, &ledger, 3).unwrap();
    let draws = vec![MutationDraw { point: None, duplicate: true, split: None }; 3];
    let next = g.sample_new_agents(&rs, 3, &draws).unwrap();
    for e in next.iter() {
        assert_eq!(e.0.genome.len(), 4);
        assert_eq!(e.0.genome[..2], e.0.genome[2..]);
    }
}

#[test]
fn dominant_genome_takes_over() {
    // genome 01 cooperates after its history, 10 defects; 01 comes first in
    // bit order, so against the defector it earns 1 and the defector 15
    let mut agents = Vec::new();
    for _ in 0..5 {
        agents.push(Agent::new(vec![true, false], vec![true], 1));
    }
    for _ in 0..5 {
        agents.push(Agent::new(vec![false, true], vec![true], 1));
    }
    let mut g = game(2);
    let draws = vec![vec![MutationDraw::none(); 10]; 50];
    match g.run(50, agents, &draws) {
        RunOutcome::Collapsed { ledger, .. } => {
            assert_eq!(ledger.len(), 1);
            assert_eq!(ledger[0].0.genome, vec![true, false]);
            let share = ledger[0].1.count as f64 / ledger[0].1.population as f64;
            assert!(share.abs_diff_eq(&1.0, 1e-9));
        },
        other => panic!("expected the defectors to take over, got {:?}", other),
    }
    assert_eq!(g.rounds.len(), 1);
}

#[test]
fn run_completes_its_budget() {
    let mut agents = Vec::new();
    for i in 0..6 {
        agents.push(Agent::new(vec![i % 2 == 0, i % 3 == 0], vec![i % 2 == 1], 1));
    }
    let mut g = game(2);
    let draws = vec![vec![MutationDraw::none(); 6]; 3];
    let outcome = g.run(3, agents, &draws);
    match outcome {
        RunOutcome::Completed(k) => assert_eq!(k, 3),
        RunOutcome::Collapsed { round, .. } => assert!(round < 3),
        RunOutcome::OutOfRange { .. } => panic!("values stay small here"),
    }
    for (i, rs) in g.rounds.iter().enumerate() {
        assert_eq!(rs.round_number as usize, i);
        assert_eq!(rs.population, 6);
        let centred: i128 = rs.agent_data.iter().map(|e| e.1.fitness * e.1.count as i128).sum();
        assert_eq!(centred, 0);
    }
}

#[test]
fn empty_records() {
    let m = AgentMetaData::new();
    assert_eq!((m.count, m.population), (0, 0));
    let rs = RoundState::new(7);
    assert_eq!(rs.round_number, 7);
    assert!(rs.agent_data.is_empty());
    let d = AgentRoundData::from(3, 4, -5, 9);
    assert_eq!((d.count, d.score, d.fitness, d.population), (3, 4, -5, 9));
}

/// Three random individuals of memory two: the engine's scores and
/// fitnesses agree with a direct computation over the pairs.
fn run_test(n_players: u32) {
    let g = game(n_players);
    let agents: Vec<Agent> = (0..3).map(|_| Agent::random_init(2)).collect();
    let ledger = Game::agents_to_hashmap(&agents);
    let n = agents.len() as i128;
    let result = g.play_round(0, &ledger, agents.len() as u32);
    if ledger.len() < 2 {
        assert_eq!(result.unwrap_err(), EngineError::Collapsed);
        return;
    }
    let rs = result.unwrap();
    let actions: Vec<bool> = ledger.iter().map(|e| e.0.map_history_to_action()).collect();
    let mut expected = vec![0i128; ledger.len()];
    for a in 0..ledger.len() {
        for b in (a + 1)..ledger.len() {
            let pay = g.game_board.get_payoff(&vec![actions[a], actions[b]]);
            expected[a] += pay[0] as i128 * ledger[b].1.count as i128;
            expected[b] += pay[1] as i128 * ledger[a].1.count as i128;
        }
    }
    let average: i128 = expected.iter().zip(ledger.iter()).map(|(s, e)| s * e.1.count as i128).sum();
    assert_eq!(rs.average_score, average);
    for (k, e) in rs.agent_data.iter().enumerate() {
        assert_eq!(e.1.score, expected[k]);
        assert_eq!(e.1.fitness, expected[k] * n - average);
        let real = e.1.fitness as f64 / (n * n) as f64;
        let direct = expected[k] as f64 / n as f64 - average as f64 / (n * n) as f64;
        assert!(real.abs_diff_eq(&direct, 1e-9));
    }
}

#[test]
fn mega_test() {
    for _ in 0..100 {
        run_test(2);
    }
}

#[test]
fn scenario_pairs_in_bit_order() {
    let a = Agent::new(vec![true, true, false, false], vec![false, false], 2);
    let b = Agent::new(vec![false, true, true, true], vec![false, false], 2);
    let c = Agent::new(vec![true, true, true, true], vec![false, false], 2);
    let g = game(2);
    let ledger = Game::agents_to_hashmap(&vec![a, b, c]);
    let ids: Vec<String> = ledger.iter().map(|e| e.0.id.clone()).collect();
    assert_eq!(ids, vec!["0111", "1100", "1111"]);
    let rs = g.play_round(0, &ledger, 3).unwrap();
    let scores: Vec<f64> = rs.agent_data.iter().map(|e| e.1.score as f64 / 3.0).collect();
    let fitness: Vec<f64> = rs.agent_data.iter().map(|e| e.1.fitness as f64 / 9.0).collect();
    let expected_scores = [20.0 / 3.0, 5.0, 20.0 / 3.0];
    let expected_fitness = [5.0 / 9.0, -10.0 / 9.0, 5.0 / 9.0];
    for k in 0..3 {
        assert!(scores[k].abs_diff_eq(&expected_scores[k], 1e-9));
        assert!(fitness[k].abs_diff_eq(&expected_fitness[k], 1e-9));
    }
    assert!((rs.average_score as f64 / 9.0).abs_diff_eq(&(55.0 / 9.0), 1e-9));
}

#[test]
fn ledger_order_ignores_input_order() {
    let mut agents = three_genomes();
    let first: Vec<String> = Game::agents_to_hashmap(&agents).iter().map(|e| e.0.id.clone()).collect();
    agents.reverse();
    let second: Vec<String> = Game::agents_to_hashmap(&agents).iter().map(|e| e.0.id.clone()).collect();
    assert_eq!(first, second);
}

#[test]
fn one_genome_run_collapses_at_round_zero() {
    let x = || Agent::new(vec![true, false, false, true], vec![false, false], 2);
    let mut g = game(2);
    let draws = vec![vec![MutationDraw::none(); 3]; 5];
    match g.run(5, vec![x(), x(), x()], &draws) {
        RunOutcome::Collapsed { round, ledger } => {
            assert_eq!(round, 0);
            assert_eq!(ledger.len(), 1);
            assert_eq!(ledger[0].1.count, 3);
            assert_eq!(ledger[0].1.population, 3);
        },
        other => panic!("expected a collapse, got {:?}", other),
    }
    assert!(g.rounds.is_empty());
}

#[test]
fn empty_record_collapses_in_resampling() {
    let mut g = game(2);
    let rs = RoundState::new(0);
    assert_eq!(g.sample_new_agents(&rs, 0, &vec![]).unwrap_err(), EngineError::Collapsed);
}

#[test]
fn resampling_advances_histories() {
    let mut g = game(2);
    let agents = vec![
        Agent::new(vec![true, true], vec![], 1),
        Agent::new(vec![false, false], vec![], 1),
        Agent::new(vec![true, false], vec![], 1),
    ];
    let ledger = Game::agents_to_hashmap(&agents);
    let rs = g.play_round(0, &ledger, 3).unwrap();
    let next = g.sample_new_agents(&rs, 3, &vec![MutationDraw::none(); 3]).unwrap();
    for e in next.iter() {
        // memory one: the history keeps the opponent's last action only
        assert_eq!(e.0.history.len(), 1);
    }
}

/// Four random individuals of memory two in a three-player game: the
/// engine's scores agree with a direct computation over the triples.
fn run_test_three() {
    let g = game(3);
    let agents: Vec<Agent> = (0..4).map(|_| Agent::random_init(2)).collect();
    let ledger = Game::agents_to_hashmap(&agents);
    let n = agents.len() as i128;
    let result = g.play_round(0, &ledger, agents.len() as u32);
    if ledger.len() < 2 {
        assert_eq!(result.unwrap_err(), EngineError::Collapsed);
        return;
    }
    let rs = result.unwrap();
    let actions: Vec<bool> = ledger.iter().map(|e| e.0.map_history_to_action()).collect();
    let count = |k: usize| ledger[k].1.count as i128;
    let mut expected = vec![0i128; ledger.len()];
    for a in 0..ledger.len() {
        for b in (a + 1)..ledger.len() {
            for c in (b + 1)..ledger.len() {
                let pay = g.game_board.get_payoff(&vec![actions[a], actions[b], actions[c]]);
                expected[a] += pay[0] as i128 * (count(b) + count(c));
                expected[b] += pay[1] as i128 * (count(a) + count(c));
                expected[c] += pay[2] as i128 * (count(a) + count(b));
            }
        }
    }
    let average: i128 = expected.iter().enumerate().map(|(k, s)| s * count(k)).sum();
    assert_eq!(rs.average_score, average);
    for (k, e) in rs.agent_data.iter().enumerate() {
        assert_eq!(e.1.score, expected[k]);
        assert_eq!(e.1.fitness, expected[k] * n - average);
    }
}

#[test]
fn mega_test_three_players() {
    for _ in 0..100 {
        run_test_three();
    }
}
