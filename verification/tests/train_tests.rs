use std::collections::HashMap;

use neat_from_scratch::{Config, Genome, Neat};

fn node_value(
    marker: u64,
    incoming: &HashMap<u64, Vec<(u64, f64)>>,
    memo: &mut HashMap<u64, f64>,
    inputs: &[f64],
    n_inputs: u64,
    bias_marker: u64,
) -> f64 {
    if let Some(v) = memo.get(&marker) {
        return *v;
    }
    let v = if marker < n_inputs {
        inputs[marker as usize]
    } else if marker == bias_marker {
        -1.0
    } else {
        let mut sum = 0.0;
        if let Some(ins) = incoming.get(&marker) {
            for (from, w) in ins.clone() {
                sum += node_value(from, incoming, memo, inputs, n_inputs, bias_marker) * w;
            }
        }
        1.0 / (1.0 + (-sum).exp())
    };
    memo.insert(marker, v);
    v
}

fn network_output(g: &Genome, inputs: &[f64]) -> f64 {
    let mut incoming: HashMap<u64, Vec<(u64, f64)>> = HashMap::new();
    let conns = g.get_connections();
    for i in 0..conns.len() {
        let c = *conns.get(i);
        if c.is_enabled() {
            incoming
                .entry(c.get_to())
                .or_insert_with(Vec::new)
                .push((c.get_from(), c.get_weight() as f64 / 1000.0));
        }
    }
    let mut memo: HashMap<u64, f64> = HashMap::new();
    node_value(3, &incoming, &mut memo, inputs, 2, 2)
}

fn xor_fitness(g: &Genome) -> u64 {
    let cases = [(0.0, 0.0, 0.0), (1.0, 0.0, 1.0), (0.0, 1.0, 1.0), (1.0, 1.0, 0.0)];
    let mut distance = 0.0;
    for (a, b, want) in cases {
        let out = network_output(g, &[a, b]);
        distance += (want - out).abs();
    }
    let fitness = (4.0 - distance) * (4.0 - distance);
    (fitness * 1000.0) as u64
}

#[test]
fn hand_built_xor_reaches_target_fitness() {
    let genome = Genome::new_init_xor();
    // the hand-picked weights solve XOR almost exactly: at least 15.9 of the
    // attainable 16.0
    assert!(xor_fitness(&genome) >= 15900);
    assert!(xor_fitness(&genome) <= 16000);
}

// The full training loop on the XOR task converges: starting from the
// connection-free baseline fitness of 4.0, the champion must clear 9.0
// within a 400-generation cap. (The task's ceiling of 16.0 is approached
// only over many thousands of generations, because the weight-shift
// operator can only shrink weights; a full run to 15.9 is what the demo
// program does, and does not fit this test's time budget.)
#[test]
fn training_converges_on_xor() {
    let mut solved = false;
    for _attempt in 0..2 {
        let cfg = Config::with_population_size(300);
        let mut neat = Neat::new_fully_connected(cfg);
        match neat.train(xor_fitness, 9000, 400) {
            Ok(champion) => {
                assert!(xor_fitness(&champion) >= 9000);
                solved = true;
                break;
            },
            Err(_) => {},
        }
    }
    assert!(solved);
}
