use std::collections::HashMap;

use neat_from_scratch::{Config, Genome, NodeGene, Population};

fn node_value(
    marker: u64,
    incoming: &HashMap<u64, Vec<(u64, f64)>>,
    memo: &mut HashMap<u64, f64>,
    inputs: &[f64],
    n_inputs: u64,
    bias_marker: u64,
) -> f64 {
    if let Some(v) = memo.get(&marker) {
        return *v;
    }
    let v = if marker < n_inputs {
        inputs[marker as usize]
    } else if marker == bias_marker {
        -1.0
    } else {
        let mut sum = 0.0;
        if let Some(ins) = incoming.get(&marker) {
            for (from, w) in ins.clone() {
                sum += node_value(from, incoming, memo, inputs, n_inputs, bias_marker) * w;
            }
        }
        1.0 / (1.0 + (-sum).exp())
    };
    memo.insert(marker, v);
    v
}

fn network_output(g: &Genome, inputs: &[f64]) -> f64 {
    let mut incoming: HashMap<u64, Vec<(u64, f64)>> = HashMap::new();
    let conns = g.get_connections();
    for i in 0..conns.len() {
        let c = *conns.get(i);
        if c.is_enabled() {
            incoming
                .entry(c.get_to())
                .or_insert_with(Vec::new)
                .push((c.get_from(), c.get_weight() as f64 / 1000.0));
        }
    }
    let mut memo: HashMap<u64, f64> = HashMap::new();
    node_value(3, &incoming, &mut memo, inputs, 2, 2)
}

fn xor(g: &Genome) -> u64 {
    let cases = [(0.0, 0.0, 0.0), (1.0, 0.0, 1.0), (0.0, 1.0, 1.0), (1.0, 1.0, 0.0)];
    let mut distance = 0.0;
    for (a, b, want) in cases {
        let out = network_output(g, &[a, b]);
        distance += (want - out).abs();
    }
    let fitness = (4.0 - distance) * (4.0 - distance);
    (fitness * 1000.0) as u64
}

#[test]
fn xor_zero_fitness_test() {
    let cfg = Config::default_config();
    let node_gene_pool = NodeGene::xor_node_gene_pool();
    let mut population = Population::new(&node_gene_pool, &cfg);
    population.calculate_fitnesses(xor, &cfg);
    let sum: u128 = population.get_fitness_vec().iter().map(|f| *f as u128).sum();
    // a connection-free genome outputs 0.5 everywhere: fitness (4 - 2)^2,
    // 4.0 in thousandths, for each of the 1000 organisms
    assert!(sum == 1000 * 4000);
}

#[test]
fn constant_environment_reproducible_sum() {
    let cfg = Config::with_population_size(50);
    let node_gene_pool = NodeGene::xor_node_gene_pool();
    let mut population = Population::new(&node_gene_pool, &cfg);
    population.calculate_fitnesses(|_: &Genome| 4000u64, &cfg);
    let sum: u128 = population.get_fitness_vec().iter().map(|f| *f as u128).sum();
    assert_eq!(sum, 50 * 4000);
    assert_eq!(population.get_max_fitness(), 4000);
}

#[test]
fn reproduce_keeps_population_size() {
    let cfg = Config::with_population_size(40);
    let node_gene_pool = NodeGene::xor_node_gene_pool();
    let mut population = Population::new(&node_gene_pool, &cfg);
    population.calculate_fitnesses(|_: &Genome| 4000u64, &cfg);
    population.speciate(&cfg);
    let r = population.reproduce(&cfg);
    assert!(r.is_ok());
    assert_eq!(population.organisms.len(), 40);
    assert_eq!(population.get_fitness_vec().len(), 40);
}
