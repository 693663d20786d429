use neat_from_scratch::{Config, Genome, NodeGene, Population, Species};

#[test]
fn speciate_assigns_each_genome_once() {
    let cfg = Config::with_population_size(30);
    let node_gene_pool = NodeGene::xor_node_gene_pool();
    let mut population = Population::new(&node_gene_pool, &cfg);
    population.calculate_fitnesses(|_: &Genome| 1000u64, &cfg);
    population.speciate(&cfg);

    let mut seen = vec![0usize; 30];
    let mut total = 0usize;
    let species = population.get_species_vec();
    for s in species.iter() {
        assert!(s.len() > 0);
        total += s.len();
        for id in s.get_g_ids() {
            assert!(id < 30);
            seen[id] += 1;
        }
    }
    assert_eq!(total, 30);
    for count in seen {
        assert_eq!(count, 1);
    }
}

#[test]
fn threshold_never_falls_below_floor() {
    let cfg = Config::with_population_size(20);
    let node_gene_pool = NodeGene::xor_node_gene_pool();
    let mut population = Population::new(&node_gene_pool, &cfg);
    population.calculate_fitnesses(|_: &Genome| 1000u64, &cfg);
    // identical genomes make one species, far below the target count, so the
    // threshold is pushed down every generation; it must stop at its floor
    for _gen in 0..50 {
        population.speciate(&cfg);
        assert!(population.compatability_threshold >= cfg.compat_min);
    }
    assert_eq!(population.compatability_threshold, cfg.compat_min);
}

#[test]
fn stagnation_penalizes_stored_fitness() {
    let mut s = Species::new(0, Genome::new_init_xor());
    s.insert(0, 8000, 50);
    // the raw best stays unpenalized even when the species stagnates
    assert_eq!(s.get_best_fitness(), 8000);
    for _gen in 0..60 {
        s.new_generation();
    }
    s.insert(1, 7000, 50);
    assert_eq!(s.get_best_fitness(), 7000);
    // the stored fitness of the new member is cut sharply
    let ids = s.get_g_ids();
    assert_eq!(ids, vec![1]);
    assert_eq!(s.get_mean_fitness(), 7);
}
