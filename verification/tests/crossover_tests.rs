use std::collections::HashMap;

use neat_from_scratch::{crossover, Config, ConnectionGene, Genome, NodeGene, NodeType};
use neat_from_scratch::vecset::Gene;

fn node_value(
    marker: u64,
    incoming: &HashMap<u64, Vec<(u64, f64)>>,
    memo: &mut HashMap<u64, f64>,
    inputs: &[f64],
    n_inputs: u64,
    bias_marker: u64,
) -> f64 {
    if let Some(v) = memo.get(&marker) {
        return *v;
    }
    let v = if marker < n_inputs {
        inputs[marker as usize]
    } else if marker == bias_marker {
        -1.0
    } else {
        let mut sum = 0.0;
        if let Some(ins) = incoming.get(&marker) {
            for (from, w) in ins.clone() {
                sum += node_value(from, incoming, memo, inputs, n_inputs, bias_marker) * w;
            }
        }
        1.0 / (1.0 + (-sum).exp())
    };
    memo.insert(marker, v);
    v
}

fn network_output(g: &Genome, inputs: &[f64]) -> f64 {
    let mut incoming: HashMap<u64, Vec<(u64, f64)>> = HashMap::new();
    let conns = g.get_connections();
    for i in 0..conns.len() {
        let c = *conns.get(i);
        if c.is_enabled() {
            incoming
                .entry(c.get_to())
                .or_insert_with(Vec::new)
                .push((c.get_from(), c.get_weight() as f64 / 1000.0));
        }
    }
    let mut memo: HashMap<u64, f64> = HashMap::new();
    node_value(3, &incoming, &mut memo, inputs, 2, 2)
}

fn xor_fitness(g: &Genome) -> u64 {
    let cases = [(0.0, 0.0, 0.0), (1.0, 0.0, 1.0), (0.0, 1.0, 1.0), (1.0, 1.0, 0.0)];
    let mut distance = 0.0;
    for (a, b, want) in cases {
        let out = network_output(g, &[a, b]);
        distance += (want - out).abs();
    }
    let fitness = (4.0 - distance) * (4.0 - distance);
    (fitness * 1000.0) as u64
}

#[test]
fn crossover_xor() {
    let cfg = Config::default_config();
    let node_pool = NodeGene::xor_node_gene_pool();

    // complete XOR genome
    let genome1 = Genome::new_init_xor();

    // incomplete XOR genome sharing a subset of the markers
    let mut genome2 = Genome::new_init(&node_pool, &cfg);
    genome2.nodes.push(NodeGene::new(NodeType::Hidden, 4, 500, 750));
    genome2.connections.push(ConnectionGene::new_explicit(0, 20000, true, 0, 4));
    genome2.connections.push(ConnectionGene::new_explicit(2, 20000, true, 1, 4));
    genome2.connections.push(ConnectionGene::new_explicit(4, 20000, true, 4, 3));
    genome2.connections.push(ConnectionGene::new_explicit(6, 10000, true, 2, 4));

    let child = crossover(&genome1, &genome2, true);
    assert!(xor_fitness(&child) > 15900);
}

#[test]
fn crossover_child_structure() {
    let genome1 = Genome::new_init_xor();
    let mut genome2 = Genome::new_init_xor();
    genome2.connections.remove(7);
    genome2.connections.remove(8);

    let child = crossover(&genome1, &genome2, true);
    // the child's node set is exactly the fitter parent's
    assert_eq!(child.get_nodes().len(), genome1.get_nodes().len());
    for i in 0..child.get_nodes().len() {
        assert_eq!(*child.get_nodes().get(i), *genome1.get_nodes().get(i));
    }
    // every child connection marker exists in at least one parent
    for i in 0..child.get_connections().len() {
        let m = child.get_connections().get(i).get_innov();
        assert!(
            genome1.get_connections().contains_innov(m)
                || genome2.get_connections().contains_innov(m)
        );
    }
    // disjoint and excess genes come from the fitter parent alone
    assert_eq!(child.get_connections().len(), 9);
}
