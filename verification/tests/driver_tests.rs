use neat::config::Configuration;
use neat::genome::Genome;
use neat::innovation::InnovationRegistry;
use neat::mutation::MutationKind;
use neat::neat::Neat;
use neat::NeatError;

fn evaluate_constant(system: &mut Neat, value: i64) {
    let ids: Vec<u64> = system.bank.genomes().iter().map(|p| p.0).collect();
    for id in ids {
        system.record_fitness(id, value);
    }
}

#[test]
fn trivial_task_reaches_full_fitness() {
    // A constant fitness of one whole unit, no costs: after ten
    // generations the best genome scores exactly one unit.
    let mut system = Neat::new(1, 1);
    system.set_configuration(Configuration {
        population_size: 20,
        max_generations: 10,
        ..Default::default()
    });
    system.populate();
    for _ in 0..10 {
        evaluate_constant(&mut system, 1000);
        system.speciate();
        system.advance_generation().unwrap();
        evaluate_constant(&mut system, 1000);
    }
    let (_, network_genome, best) = system.get_best();
    assert_eq!(best, 1000);
    assert!(network_genome.nodes().len() >= 2);
}

#[test]
fn population_size_is_stable_across_generations() {
    let mut system = Neat::new(2, 1);
    system.set_configuration(Configuration {
        population_size: 30,
        ..Default::default()
    });
    system.populate();
    for _ in 0..3 {
        evaluate_constant(&mut system, 500);
        system.speciate();
        system.advance_generation().unwrap();
        assert_eq!(system.bank.genomes().len(), 30);
    }
}

#[test]
fn elites_survive_unchanged() {
    // Distinct fitnesses, one species: the ten fittest ids of one
    // generation appear in the next.
    let mut system = Neat::new(1, 1);
    system.set_configuration(Configuration {
        population_size: 100,
        elitism_percent: 10,
        survival_percent: 50,
        distance_bias_coefficient: 0,
        distance_weight_coefficient: 0,
        distance_disjoint_coefficient: 0,
        distance_disabled_coefficient: 0,
        distance_activation_coefficient: 0,
        distance_aggregation_coefficient: 0,
        ..Default::default()
    });
    system.populate();
    let ids: Vec<u64> = system.bank.genomes().iter().map(|p| p.0).collect();
    for id in &ids {
        system.record_fitness(*id, (*id as i64) * 1000);
    }
    system.speciate();

    let mut fittest: Vec<u64> = ids.clone();
    fittest.sort();
    let top: Vec<u64> = fittest.iter().rev().take(10).cloned().collect();

    system.advance_generation().unwrap();

    let new_ids: Vec<u64> = system.bank.genomes().iter().map(|p| p.0).collect();
    for id in &top {
        assert!(new_ids.contains(id));
    }
}

#[test]
fn empty_survivor_pool_is_fatal() {
    let mut system = Neat::new(1, 1);
    system.set_configuration(Configuration {
        population_size: 3,
        survival_percent: 0,
        ..Default::default()
    });
    system.populate();
    evaluate_constant(&mut system, 100);
    system.speciate();
    assert_eq!(
        system.advance_generation().unwrap_err(),
        NeatError::EmptySurvivorPool
    );
    assert_eq!(system.bank.genomes().len(), 3);
}

#[test]
fn goal_reached_checks_best_fitness() {
    let mut system = Neat::new(1, 1);
    system.set_configuration(Configuration {
        population_size: 5,
        fitness_goal: Some(900),
        ..Default::default()
    });
    system.populate();
    evaluate_constant(&mut system, 800);
    assert!(!system.goal_reached());
    evaluate_constant(&mut system, 950);
    assert!(system.goal_reached());
}

#[test]
fn mutations_without_targets_are_no_ops() {
    let mut reg = InnovationRegistry::new();
    let config: Configuration = Default::default();

    // No nodes at all: every operator leaves the genome empty.
    let mut g = Genome::empty(1, 1);
    g.mutate(MutationKind::AddConnection, &mut reg, &config);
    g.mutate(MutationKind::AddNode, &mut reg, &config);
    g.mutate(MutationKind::WeightPerturb, &mut reg, &config);
    g.mutate(MutationKind::WeightReplace, &mut reg, &config);
    g.mutate(MutationKind::BiasPerturb, &mut reg, &config);
    g.mutate(MutationKind::BiasReplace, &mut reg, &config);
    g.mutate(MutationKind::DisableConnection, &mut reg, &config);
    g.mutate(MutationKind::ChangeActivation, &mut reg, &config);
    g.mutate(MutationKind::ChangeAggregation, &mut reg, &config);
    assert_eq!(g.nodes().len(), 0);
    assert_eq!(g.connections().len(), 0);

    // All connections disabled: a split or a disable has no target.
    let mut reg2 = InnovationRegistry::seeded(1, 1);
    let mut h = Genome::new(1, 1);
    h.disable_connection(0);
    let before = h.connections().clone();
    h.mutate(MutationKind::AddNode, &mut reg2, &config);
    h.mutate(MutationKind::DisableConnection, &mut reg2, &config);
    assert_eq!(h.connections(), &before);
    assert_eq!(h.nodes().len(), 2);
}

#[test]
fn weighted_mutation_pick_skips_zero_weights() {
    let mut system = Neat::new(1, 1);
    let mut kinds: Vec<(MutationKind, u64)> = Vec::new();
    kinds.push((MutationKind::AddConnection, 0));
    kinds.push((MutationKind::WeightPerturb, 7));
    kinds.push((MutationKind::AddNode, 0));
    system.set_configuration(Configuration {
        mutation_kinds: kinds,
        ..Default::default()
    });
    for _ in 0..50 {
        assert_eq!(system.pick_mutation(), MutationKind::WeightPerturb);
    }
}

#[test]
fn configuration_check_matches_validity() {
    let good: Configuration = Default::default();
    assert!(good.check());

    let bad = Configuration {
        survival_percent: 101,
        ..Default::default()
    };
    assert!(!bad.check());

    let no_weights = Configuration {
        mutation_kinds: vec![(MutationKind::AddNode, 0)],
        ..Default::default()
    };
    assert!(!no_weights.check());
}
