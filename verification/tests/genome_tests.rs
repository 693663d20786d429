use neat_from_scratch::Genome;
use neat_from_scratch::vecset::Gene;

#[test]
fn is_connected_xor() {
    let genome = Genome::new_init_xor();
    assert!(genome.is_connected(0, 3));
    assert!(genome.is_connected(1, 3));
    assert!(genome.is_connected(2, 3));
    assert!(!genome.is_connected(4, 1));
    assert!(!genome.is_connected(1, 2));
    assert!(!genome.is_connected(3, 1));
}

#[test]
fn markers_strictly_ascending() {
    let genome = Genome::new_init_xor();
    let nodes = genome.get_nodes();
    assert_eq!(nodes.len(), 6);
    for i in 1..nodes.len() {
        assert!(nodes.get(i - 1).get_innov() < nodes.get(i).get_innov());
    }
    let conns = genome.get_connections();
    assert_eq!(conns.len(), 9);
    for i in 1..conns.len() {
        assert!(conns.get(i - 1).get_innov() < conns.get(i).get_innov());
    }
}

#[test]
fn clone_preserves_genes() {
    let genome = Genome::new_init_xor();
    let copy = genome.clone();
    assert_eq!(copy.get_nodes().len(), genome.get_nodes().len());
    assert_eq!(copy.get_connections().len(), genome.get_connections().len());
    for i in 0..genome.get_connections().len() {
        let a = *genome.get_connections().get(i);
        let b = *copy.get_connections().get(i);
        assert_eq!(a, b);
    }
}
