use std::collections::HashMap;

use neat_from_scratch::pools::{get_or_create_connection, get_or_create_node};
use neat_from_scratch::vecset::Gene;
use neat_from_scratch::{
    conn_hashcode, mutate_conn_enabled, mutate_new_conn, mutate_new_node, mutate_weight_random,
    mutate_weight_shift, Config, ConnectionGene, Genome, NodeGene,
};

fn xor_conn_pool() -> HashMap<u64, ConnectionGene> {
    let mut cp: HashMap<u64, ConnectionGene> = HashMap::new();
    let pairs = [
        (0u64, 4u64),
        (0, 5),
        (1, 4),
        (1, 5),
        (4, 3),
        (5, 3),
        (2, 4),
        (2, 5),
        (2, 3),
    ];
    for (f, t) in pairs {
        get_or_create_connection(&mut cp, f, t, 5000);
    }
    cp
}

#[test]
fn add_node_splits_connection() {
    let cfg = Config::default_config();
    let mut node_pool = NodeGene::xor_node_gene_pool();
    let mut conn_pool: HashMap<u64, ConnectionGene> = HashMap::new();
    // two unrelated templates first, so the split gene's marker is 2 and the
    // hidden node's identity (4 + 2 = 6) is new to the registry
    get_or_create_connection(&mut conn_pool, 0, 4, cfg.weight_random_max);
    get_or_create_connection(&mut conn_pool, 0, 5, cfg.weight_random_max);
    let template = get_or_create_connection(&mut conn_pool, 0, 3, cfg.weight_random_max);
    let weight = template.get_weight();

    let mut g = Genome::new();
    g.nodes.push(*node_pool.get(&0).unwrap());
    g.nodes.push(*node_pool.get(&3).unwrap());
    g.connections.push(template);

    let ok = mutate_new_node(&mut g, &mut node_pool, &mut conn_pool, &cfg);
    assert!(ok);
    // the split connection is gone
    assert!(!g.connections.contains_innov(2));
    // the new hidden node took the next free marker and sits at the midpoint
    let nn = *node_pool.get(&(4 + 2)).unwrap();
    let new_marker = nn.get_innov();
    assert_eq!(new_marker, 6);
    assert!(g.nodes.contains_innov(new_marker));
    assert_eq!(nn.get_x(), 500);
    assert_eq!(nn.get_y(), (750 + 500) / 2);
    // two new connections: source -> new at weight 1.0, new -> target at the
    // split gene's weight
    let c_in = *g.connections.get_by_innov(
        conn_pool.get(&conn_hashcode(0, new_marker)).unwrap().get_innov(),
    );
    assert_eq!(c_in.get_from(), 0);
    assert_eq!(c_in.get_to(), new_marker);
    assert_eq!(c_in.get_weight(), 1000);
    let c_out = *g.connections.get_by_innov(
        conn_pool.get(&conn_hashcode(new_marker, 3)).unwrap().get_innov(),
    );
    assert_eq!(c_out.get_from(), new_marker);
    assert_eq!(c_out.get_to(), 3);
    assert_eq!(c_out.get_weight(), weight);
}

#[test]
fn add_connection_rejects_implied_edges() {
    let cfg = Config::default_config();
    let mut conn_pool = xor_conn_pool();
    let mut done = false;
    for _attempt in 0..20 {
        let mut g = Genome::new_init_xor();
        g.connections.remove(3);
        assert!(!g.is_connected(1, 5));
        if mutate_new_conn(&mut g, &mut conn_pool, &cfg) {
            // the only unconnected ascending pair is (1, 5); the registry
            // hands back the marker it already assigned for that pair
            assert!(g.connections.contains_innov(3));
            assert_eq!(g.connections.len(), 9);
            assert!(g.is_connected(1, 5));
            let c = *g.connections.get_by_innov(3);
            assert_eq!(c.get_from(), 1);
            assert_eq!(c.get_to(), 5);
            done = true;
            break;
        }
    }
    assert!(done);
}

#[test]
fn registry_markers_converge() {
    let mut cp: HashMap<u64, ConnectionGene> = HashMap::new();
    let first = get_or_create_connection(&mut cp, 0, 4, 5000);
    let again = get_or_create_connection(&mut cp, 0, 4, 5000);
    assert_eq!(first.get_innov(), again.get_innov());
    assert_eq!(first.get_weight(), again.get_weight());
    let other = get_or_create_connection(&mut cp, 1, 4, 5000);
    assert_ne!(other.get_innov(), first.get_innov());

    let mut np = NodeGene::xor_node_gene_pool();
    let n1 = get_or_create_node(&mut np, 40, 500, 500, 4);
    let n2 = get_or_create_node(&mut np, 40, 999, 999, 4);
    assert_eq!(n1.get_innov(), n2.get_innov());
    assert_eq!(n2.get_x(), 500);
    let n3 = get_or_create_node(&mut np, 41, 500, 500, 4);
    assert_ne!(n3.get_innov(), n1.get_innov());
}

#[test]
fn toggle_flips_one_connection() {
    let mut g = Genome::new_init_xor();
    let before: Vec<bool> = (0..9).map(|i| g.connections.get(i).is_enabled()).collect();
    mutate_conn_enabled(&mut g);
    let after: Vec<bool> = (0..9).map(|i| g.connections.get(i).is_enabled()).collect();
    let flipped = before.iter().zip(after.iter()).filter(|(a, b)| a != b).count();
    assert_eq!(flipped, 1);
}

#[test]
fn weight_mutations_stay_in_bounds() {
    let cfg = Config::default_config();
    let mut g = Genome::new_init_xor();
    mutate_weight_random(&mut g, &cfg);
    for i in 0..g.connections.len() {
        let w = g.connections.get(i).get_weight();
        assert!(w >= -30000 && w <= 30000);
    }
    let before: Vec<i64> = (0..9).map(|i| g.connections.get(i).get_weight()).collect();
    mutate_weight_shift(&mut g, &cfg);
    for i in 0..9 {
        let w = g.connections.get(i).get_weight();
        assert!(w.abs() <= before[i].abs());
    }
}
