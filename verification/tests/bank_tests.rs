use neat::bank::GenomeBank;
use neat::config::Configuration;
use neat::genome::Genome;

#[test]
fn can_add_genome() {
    let mut bank = GenomeBank::new();

    let genome = Genome::new(1, 1);
    bank.add_genome(genome);
}

#[test]
fn can_mark_fitness() {
    let mut bank = GenomeBank::new();

    let genome = Genome::new(1, 1);
    let id = bank.add_genome(genome);

    bank.mark_fitness(id, 1337);
}

#[test]
fn checks_all_have_fitness_measured() {
    let mut bank = GenomeBank::new();

    let genome_first = Genome::new(1, 1);
    let genome_second = Genome::new(1, 1);

    let id_first = bank.add_genome(genome_first);
    let id_second = bank.add_genome(genome_second);

    bank.mark_fitness(id_first, 1337);
    assert!(!bank.all_genomes_tested());

    bank.mark_fitness(id_second, 1338);
    assert!(bank.all_genomes_tested());
}

#[test]
fn identical_genomes_are_related() {
    let configuration: Configuration = Default::default();
    let mut bank = GenomeBank::new();

    let genome = Genome::new(1, 1);
    let genome_copy = genome.clone();

    bank.add_genome(genome.clone());
    bank.add_genome(genome_copy.clone());

    assert_eq!(
        bank.are_genomes_related(&genome, &genome_copy, &configuration),
        true
    );
}

#[test]
fn different_genomes_are_not_related() {
    let configuration = Configuration {
        compatibility_threshold: 0,
        ..Default::default()
    };
    let mut bank = GenomeBank::new();

    let genome_first = Genome::new(1, 1);
    let genome_second = Genome::new(1, 1);

    bank.add_genome(genome_first.clone());
    bank.add_genome(genome_second.clone());

    assert_eq!(
        bank.are_genomes_related(&genome_first, &genome_second, &configuration),
        false
    );
}

#[test]
fn identical_genomes_are_same_species() {
    let configuration: Configuration = Default::default();
    let mut bank = GenomeBank::new();

    let genome = Genome::new(1, 1);

    bank.add_genome(genome.clone());
    bank.add_genome(genome);

    bank.speciate(&configuration);

    assert_eq!(bank.species()[0].len(), 2);
}

#[test]
fn different_genomes_are_different_species() {
    let configuration = Configuration {
        compatibility_threshold: 0,
        ..Default::default()
    };
    let mut bank = GenomeBank::new();

    let genome = Genome::new(1, 1);

    bank.add_genome(genome.clone());
    bank.add_genome(genome);
    bank.add_genome(Genome::new(1, 1));

    bank.speciate(&configuration);

    assert_eq!(bank.species()[0].len(), 2);
    assert_eq!(bank.species()[1].len(), 1);
}

#[test]
fn adjusted_fitness_shares_over_species_and_charges_costs() {
    let configuration = Configuration {
        node_cost: 100,
        connection_cost: 10,
        ..Default::default()
    };
    let mut bank = GenomeBank::new();

    // Two identical genomes form one species of two.
    let genome = Genome::new(1, 1);
    let id_a = bank.add_genome(genome.clone());
    let id_b = bank.add_genome(genome);
    bank.mark_fitness(id_a, 10_000);
    bank.mark_fitness(id_b, 4_000);
    bank.speciate(&configuration);

    let adjusted = bank.adjusted_fitnesses(&configuration);
    // Each minimal genome has 2 nodes and 1 connection: cost 210; the
    // species has two members.
    assert_eq!(adjusted[0], (id_a, (10_000 - 210) / 2));
    assert_eq!(adjusted[1], (id_b, (4_000 - 210) / 2));
}
