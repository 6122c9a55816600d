use neat::genes::{ConnectionGene, NodeKind};
use neat::genome::Genome;
use neat::innovation::InnovationRegistry;
use neat::NeatError;

#[test]
fn initialize() {
    Genome::new(2, 2);
}

#[test]
fn add_node_does_not_change_connections() {
    let mut g = Genome::new(1, 2);

    g.add_node();

    let first_connection = &g.connections()[0];
    assert_eq!(first_connection.from, 0);
    assert_eq!(first_connection.to, 1);

    let second_connection = &g.connections()[1];
    assert_eq!(second_connection.from, 0);
    assert_eq!(second_connection.to, 2);
}

#[test]
fn crossover() {
    let a = Genome::new(2, 2);
    let b = Genome::new(2, 2);

    Genome::crossover(&a, 1000, &b, 2000).unwrap();
}

#[test]
fn crossover_fail_1() {
    let a = Genome::new(2, 3);
    let b = Genome::new(2, 2);

    let r = Genome::crossover(&a, 1000, &b, 2000);
    assert_eq!(r.unwrap_err(), NeatError::IncompatibleParents);
}

#[test]
fn crossover_fail_2() {
    let a = Genome::new(3, 2);
    let b = Genome::new(2, 2);

    let r = Genome::crossover(&a, 1000, &b, 2000);
    assert_eq!(r.unwrap_err(), NeatError::IncompatibleParents);
}

#[test]
fn is_projecting_directly() {
    let g = Genome::new(2, 2);

    assert!(g.is_projecting_directly(0, 2));
    assert!(g.is_projecting_directly(0, 3));
    assert!(g.is_projecting_directly(1, 2));
    assert!(g.is_projecting_directly(1, 3));

    assert!(!g.is_projecting_directly(2, 0));
    assert!(!g.is_projecting_directly(3, 0));
    assert!(!g.is_projecting_directly(2, 1));
    assert!(!g.is_projecting_directly(3, 1));
}

#[test]
fn is_projected_directly() {
    let g = Genome::new(2, 2);

    assert!(g.is_projected_directly(2, 0));
    assert!(g.is_projected_directly(3, 0));
    assert!(g.is_projected_directly(2, 1));
    assert!(g.is_projected_directly(3, 1));

    assert!(!g.is_projected_directly(0, 2));
    assert!(!g.is_projected_directly(0, 3));
    assert!(!g.is_projected_directly(1, 2));
    assert!(!g.is_projected_directly(1, 3));
}

#[test]
fn can_connect() {
    let mut g = Genome::empty(1, 1);
    let mut reg = InnovationRegistry::new();

    g.push_node(NodeKind::Input);
    g.push_node(NodeKind::Hidden);
    g.push_node(NodeKind::Hidden);
    g.push_node(NodeKind::Hidden);
    g.push_node(NodeKind::Output);

    g.add_connection(0, 1, &mut reg).unwrap();
    g.add_connection(0, 2, &mut reg).unwrap();
    g.add_connection(1, 3, &mut reg).unwrap();
    g.add_connection(2, 3, &mut reg).unwrap();
    g.add_connection(3, 4, &mut reg).unwrap();

    assert!(g.can_connect(1, 2));
    assert!(g.can_connect(2, 1));

    assert!(!g.can_connect(3, 1));
    assert!(!g.can_connect(3, 2));
    assert!(!g.can_connect(4, 1));
    assert!(!g.can_connect(4, 2));
}

#[test]
fn get_node_order() {
    let mut g = Genome::empty(2, 1);
    let mut reg = InnovationRegistry::new();

    g.push_node(NodeKind::Input);
    g.push_node(NodeKind::Input);
    g.push_node(NodeKind::Output);
    g.push_node(NodeKind::Hidden);
    g.push_node(NodeKind::Hidden);
    g.push_node(NodeKind::Hidden);

    g.add_connection(0, 2, &mut reg).unwrap();
    g.add_connection(1, 3, &mut reg).unwrap();
    g.add_connection(1, 4, &mut reg).unwrap();
    g.add_connection(1, 5, &mut reg).unwrap();
    g.add_connection(3, 2, &mut reg).unwrap();
    g.add_connection(4, 3, &mut reg).unwrap();
    g.add_connection(5, 4, &mut reg).unwrap();

    assert!(g.node_order().is_some());
    assert!(g.node_order_with(vec![ConnectionGene::new(3, 5, 0)]).is_none());
}

#[test]
fn no_recurrent_connections() {
    let mut g = Genome::empty(2, 1);
    let mut reg = InnovationRegistry::new();

    g.push_node(NodeKind::Input);
    g.push_node(NodeKind::Input);
    g.push_node(NodeKind::Output);
    g.push_node(NodeKind::Hidden);
    g.push_node(NodeKind::Hidden);
    g.push_node(NodeKind::Hidden);

    g.add_connection(0, 2, &mut reg).unwrap();
    g.add_connection(1, 3, &mut reg).unwrap();
    g.add_connection(1, 4, &mut reg).unwrap();
    g.add_connection(1, 5, &mut reg).unwrap();
    g.add_connection(3, 2, &mut reg).unwrap();
    g.add_connection(4, 3, &mut reg).unwrap();
    g.add_connection(5, 4, &mut reg).unwrap();

    assert!(g.add_connection(3, 5, &mut reg).is_err());
}

#[test]
fn back_edge_on_diamond_is_rejected_and_harmless() {
    let mut g = Genome::empty(1, 1);
    let mut reg = InnovationRegistry::new();

    g.push_node(NodeKind::Input);
    g.push_node(NodeKind::Hidden);
    g.push_node(NodeKind::Hidden);
    g.push_node(NodeKind::Hidden);
    g.push_node(NodeKind::Output);

    g.add_connection(0, 1, &mut reg).unwrap();
    g.add_connection(0, 2, &mut reg).unwrap();
    g.add_connection(1, 3, &mut reg).unwrap();
    g.add_connection(2, 3, &mut reg).unwrap();
    g.add_connection(3, 4, &mut reg).unwrap();

    let before = g.connections().clone();
    assert!(g.add_connection(3, 1, &mut reg).is_err());
    assert_eq!(g.connections(), &before);
    assert!(g.node_order().is_some());
}

#[test]
fn self_crossover_preserves_genes() {
    let a = Genome::new(2, 2);
    let child = Genome::crossover(&a, 500, &a, 500).unwrap();

    assert_eq!(child.nodes(), a.nodes());
    // The minimal genome is already in canonical order, so the child's
    // connections match gene for gene.
    assert_eq!(child.connections(), a.connections());
}

#[test]
fn equal_fitness_crossover_node_counts_span_range() {
    let mut a = Genome::new(1, 1);
    a.add_node();
    a.add_node();
    a.add_node();
    let mut b = Genome::new(1, 1);
    b.add_node();
    b.add_node();
    b.add_node();
    b.add_node();
    b.add_node();
    assert_eq!(a.nodes().len(), 5);
    assert_eq!(b.nodes().len(), 7);

    let mut seen = [false; 8];
    for _ in 0..1000 {
        let child = Genome::crossover(&a, 700, &b, 700).unwrap();
        let n = child.nodes().len();
        assert!(5 <= n && n <= 7);
        seen[n] = true;
    }
    assert!(seen[5] && seen[6] && seen[7]);
}

#[test]
fn innovation_numbers_are_stable_and_distinct() {
    let mut reg = InnovationRegistry::new();
    let first = reg.innovation_for(0, 2);
    let second = reg.innovation_for(1, 2);
    let again = reg.innovation_for(0, 2);
    assert_eq!(first, again);
    assert_ne!(first, second);

    let seeded = InnovationRegistry::seeded(2, 2);
    let g = Genome::new(2, 2);
    for c in g.connections() {
        assert_eq!(seeded.pairs[c.innovation as usize], (c.from, c.to));
    }
}
