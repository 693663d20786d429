use neat_from_scratch::{distance, Config, Genome};

#[test]
fn distance_symmetric_and_zero_on_self() {
    let cfg = Config::default_config();
    let a = Genome::new_init_xor();
    let mut b = Genome::new_init_xor();
    b.connections.remove(8);
    b.connections.remove(3);
    assert_eq!(distance(&a, &b, &cfg), distance(&b, &a, &cfg));
    assert_eq!(distance(&a, &a, &cfg), 0);
    assert_eq!(distance(&b, &b, &cfg), 0);
}

#[test]
fn distance_exact_value() {
    let cfg = Config::default_config();
    let a = Genome::new_init_xor();
    let mut b = Genome::new_init_xor();
    b.connections.remove(8);
    // one excess gene (marker 8, past the shorter side's largest marker 7),
    // no disjoint genes, identical weights on the 8 matching genes, and the
    // larger enabled count is 9: 1.0 * 1/9 in thousandths, rounded down
    assert_eq!(distance(&a, &b, &cfg), 111);
    assert_eq!(distance(&b, &a, &cfg), 111);
}

#[test]
fn distance_counts_disabled_genes_on_neither_side() {
    let cfg = Config::default_config();
    let a = Genome::new_init_xor();
    let mut b = Genome::new_init_xor();
    // disabling a gene removes it from the walk on both sides alike
    let g = *b.connections.get(8);
    let mut g2 = g;
    g2.set_enabled(false);
    b.connections.update_at(8, g2);
    assert_eq!(distance(&a, &b, &cfg), 111);
    assert_eq!(distance(&b, &a, &cfg), 111);
}
