use evo_games::agent::{Agent, MutationDraw};
use evo_games::types::ConfigurationError;

fn agent(genome: Vec<bool>, history: Vec<bool>, memory_len: u32) -> Agent {
    Agent::new(genome, history, memory_len)
}

#[test]
fn genome_text_spells_bits() {
    assert_eq!(Agent::genome_to_id(vec![true, false, true, true]), "1011");
    assert_eq!(Agent::genome_to_id(vec![]), "");
}

#[test]
fn new_keeps_fields_and_id() {
    let a = agent(vec![false, true, true, false], vec![true], 2);
    assert_eq!(a.id, "0110");
    assert_eq!(a.memory_len, 2);
    assert_eq!(a.history_len, 1);
    assert_eq!(a.history, vec![true]);
}

#[test]
fn action_reads_history_most_significant_first() {
    // history [true, false] spells 2
    let genome = vec![false, false, true, false];
    let a = agent(genome.clone(), vec![true, false], 2);
    assert!(a.map_history_to_action());
    let mut b = agent(genome, vec![false, true], 2);
    assert!(!b.get_action());
    // an empty history reads the first entry
    let c = agent(vec![true, false, false, false], vec![], 2);
    assert!(c.map_history_to_action());
}

#[test]
fn add_memory_grows_then_slides() {
    let mut a = agent(vec![false; 16], vec![], 4);
    a.add_memory([true, false]);
    assert_eq!(a.history, vec![true, false]);
    assert_eq!(a.history_len, 2);
    a.add_memory([false, false]);
    assert_eq!(a.history, vec![true, false, false, false]);
    a.add_memory([true, true]);
    assert_eq!(a.history, vec![false, false, true, true]);
    assert_eq!(a.history_len, 4);
}

#[test]
fn add_memory_at_odd_capacity_keeps_most_recent_bits() {
    let mut a = agent(vec![false; 8], vec![true, true], 3);
    a.add_memory([false, true]);
    assert_eq!(a.history, vec![true, false, true]);
    let mut z = agent(vec![true], vec![], 0);
    z.add_memory([true, true]);
    assert!(z.history.is_empty());
}

#[test]
fn point_mutation_flips_exactly_one_bit() {
    let parent = vec![true, false, false, true];
    let mut a = agent(parent.clone(), vec![], 2);
    a.point_mutation(2);
    let differing = a.genome.iter().zip(parent.iter()).filter(|(x, y)| x != y).count();
    assert_eq!(differing, 1);
    assert_eq!(a.genome, vec![true, false, true, true]);
    assert_eq!(a.id, "1011");
}

#[test]
fn split_mutation_doubles_and_keeps_parent_halves() {
    let parent = vec![true, false, false, true];
    let mut first = agent(parent.clone(), vec![], 2);
    first.split_mutation(false);
    assert_eq!(first.genome.len(), 8);
    assert_eq!(&first.genome[..4], &parent[..]);
    assert_eq!(first.genome, vec![true, false, false, true, true, false, true, false]);
    assert_eq!(first.memory_len, 3);
    let mut second = agent(parent.clone(), vec![], 2);
    second.split_mutation(true);
    assert_eq!(&second.genome[2..4], &parent[2..4]);
    assert_eq!(second.genome, vec![true, false, false, true, false, true, false, true]);
    let mut single = agent(vec![true], vec![], 0);
    single.split_mutation(true);
    assert_eq!(single.genome, vec![true, true]);
}

#[test]
fn duplication_copies_whole_genome() {
    let mut a = agent(vec![true, false], vec![false], 1);
    a.duplication_mutation();
    assert_eq!(a.genome, vec![true, false, true, false]);
    assert_eq!(a.id, "1010");
}

#[test]
fn mutate_applies_drawn_operators() {
    let mut a = agent(vec![true, false, false, true], vec![], 2);
    assert!(!a.mutate(MutationDraw::none()));
    assert_eq!(a.genome, vec![true, false, false, true]);
    // raw 5 picks bit 5 % 4 == 1
    let draw = MutationDraw { point: Some(5), duplicate: false, split: None };
    assert!(a.mutate(draw));
    assert_eq!(a.genome, vec![true, true, false, true]);
    let draw = MutationDraw { point: None, duplicate: false, split: Some(true) };
    assert!(a.mutate(draw));
    assert_eq!(a.genome.len(), 8);
    assert_eq!(a.id, Agent::genome_to_id(a.genome.clone()));
}

#[test]
fn random_init_has_full_memory() {
    let a = Agent::random_init(3);
    assert_eq!(a.genome.len(), 8);
    assert_eq!(a.history.len(), 3);
    assert_eq!(a.history_len, 3);
    assert_eq!(a.id.len(), 8);
    assert_eq!(a.id, Agent::genome_to_id(a.genome.clone()));
}

#[test]
fn equality_is_by_genome() {
    let a = agent(vec![true, false], vec![true], 1);
    let b = agent(vec![true, false], vec![false], 1);
    let c = agent(vec![false, false], vec![true], 1);
    assert!(a == b);
    assert!(a != c);
    let d = a.duplicate();
    assert_eq!(d.history, a.history);
}

#[test]
fn checked_constructor_refuses_bad_lengths() {
    assert!(Agent::try_new(vec![true, false], vec![true], 1).is_ok());
    assert_eq!(Agent::try_new(vec![true, false, true], vec![], 1).unwrap_err(), ConfigurationError::GenomeLength);
    assert_eq!(Agent::try_new(vec![true, false], vec![true, true], 1).unwrap_err(), ConfigurationError::GenomeLength);
    assert_eq!(Agent::try_new(vec![], vec![], 0).unwrap_err(), ConfigurationError::GenomeLength);
    let a = Agent::try_new(vec![false, true, true, false], vec![], 2).unwrap();
    assert_eq!(a.id, "0110");
}

#[test]
fn duplication_counts_only_when_enabled() {
    let off = MutationDraw::from_triggers(None, true, false, Some(true));
    assert!(!off.duplicate);
    assert_eq!(off.split, Some(true));
    let on = MutationDraw::from_triggers(Some(3), true, true, None);
    assert!(on.duplicate);
    assert_eq!(on.point, Some(3));
}

#[test]
fn bit_order_comparison() {
    let a = Agent::new(vec![false, true], vec![], 1);
    let b = Agent::new(vec![true, false], vec![], 1);
    let c = Agent::new(vec![false, true, false, false], vec![], 2);
    assert!(a.genome_before(&b));
    assert!(!b.genome_before(&a));
    assert!(a.genome_before(&c));
    assert!(!a.genome_before(&a));
}
