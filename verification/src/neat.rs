use vstd::prelude::*;

use std::collections::HashMap;

use crate::config::Config;
use crate::connection_gene::{conn_hashcode, ConnectionGene};
use crate::genome::{
    aligned_gene, conn_aligned, fully_connected_pool, lemma_aligned_consistent, Genome,
    GenomeView,
};
use crate::mutation::{mutate_genome, mutated_by_operators};
use crate::node_gene::NodeGene;
use crate::pools::{conn_pool_wf, map_extends, node_pool_wf};
use crate::population::{
    gene_in_pop, genome_from_pop, pop_consistent, NeatError, Population,
};
use crate::crossover::contains_gene;
use crate::vecset::Gene;
use crate::NodeType;

verus! {

broadcast use vstd::std_specs::hash::group_hash_axioms, vstd::set::group_set_axioms;

/// The whole engine: the two innovation registries (process-wide templates
/// keyed by structural identity), the population, and the configuration.
pub struct Neat {
    pub node_pool: HashMap<u64, NodeGene>,
    pub connection_pool: HashMap<u64, ConnectionGene>,
    pub population: Population,
    pub config: Config,
}

/// Growing the registry keeps every aligned genome aligned.
proof fn lemma_aligned_extends(
    g: GenomeView,
    cp_old: Map<u64, ConnectionGene>,
    cp_new: Map<u64, ConnectionGene>,
)
    requires
        conn_aligned(g, cp_old),
        map_extends(cp_new, cp_old),
    ensures
        conn_aligned(g, cp_new),
{
    assert forall|i: int| 0 <= i < g.conns.len() implies aligned_gene(
        #[trigger] g.conns[i],
        cp_new,
    ) by {
        assert(aligned_gene(g.conns[i], cp_old));
        let k = crate::connection_gene::spec_conn_hashcode(g.conns[i].from(), g.conns[i].to());
        assert(cp_old.contains_key(k));
        assert(cp_new.contains_key(k) && cp_new[k] == cp_old[k]);
    }
}

/// A genome whose genes all come from aligned genomes is aligned.
proof fn lemma_from_pop_aligned(
    g: GenomeView,
    orgs: Seq<Genome>,
    champ: Option<Genome>,
    cp: Map<u64, ConnectionGene>,
)
    requires
        genome_from_pop(g, orgs, champ),
        forall|k: int| 0 <= k < orgs.len() ==> conn_aligned((#[trigger] orgs[k])@, cp),
        champ is Some ==> conn_aligned(champ->0@, cp),
    ensures
        conn_aligned(g, cp),
{
    assert forall|i: int| 0 <= i < g.conns.len() implies aligned_gene(
        #[trigger] g.conns[i],
        cp,
    ) by {
        assert(gene_in_pop(orgs, champ, g.conns[i]));
        if exists|k: int|
            0 <= k < orgs.len() && contains_gene((#[trigger] orgs[k])@.conns, g.conns[i]) {
            let k = choose|k: int|
                0 <= k < orgs.len() && contains_gene((#[trigger] orgs[k])@.conns, g.conns[i]);
            let j = choose|j: int|
                0 <= j < orgs[k]@.conns.len() && orgs[k]@.conns[j] == g.conns[i];
            assert(aligned_gene(orgs[k]@.conns[j], cp));
        } else {
            let j = choose|j: int|
                0 <= j < champ->0@.conns.len() && champ->0@.conns[j] == g.conns[i];
            assert(aligned_gene(champ->0@.conns[j], cp));
        }
    }
}


/// The node template a fresh engine seeds for marker `k`: inputs and the
/// bias at the left edge, outputs at the right, each side spread top-down by
/// `1 - (position + 1) / (side count + 1)`, in thousandths.
pub open spec fn seed_template(cfg: &Config, k: int) -> NodeGene {
    let pos = if k < cfg.spec_input_count() {
        k
    } else {
        k - cfg.spec_input_count()
    };
    let den = if k < cfg.spec_input_count() {
        cfg.spec_input_count()
    } else {
        cfg.outputs as int
    };
    NodeGene {
        node_type: if k < cfg.inputs {
            NodeType::Input
        } else if cfg.bias && k < cfg.spec_input_count() {
            NodeType::Bias
        } else {
            NodeType::Output
        },
        innovation_number: k as u64,
        x: if k < cfg.spec_input_count() {
            0
        } else {
            1000
        },
        y: (1000 - ((pos + 1) * 1000) / (den + 1)) as u64,
    }
}


impl Neat {
    /// The engine invariant: a sane configuration, well-formed registries, a
    /// well-formed population, and every genome aligned with the connection
    /// registry.
    pub open spec fn wf(&self) -> bool {
        &&& self.config.wf()
        &&& self.population.wf(&self.config)
        &&& node_pool_wf(self.node_pool@, self.config.spec_io_count())
        &&& conn_pool_wf(self.connection_pool@)
        &&& forall|i: int|
            0 <= i < self.population.organisms@.len() ==> conn_aligned(
                (#[trigger] self.population.organisms@[i])@,
                self.connection_pool@,
            )
        &&& self.population.champion is Some ==> conn_aligned(
            self.population.champion->0@,
            self.connection_pool@,
        )
    }

    /// A fresh engine: input, bias and output node templates in the node
    /// registry, an empty connection registry, and a population of
    /// connection-free genomes.
    pub fn new(cfg: Config) -> (r: Neat)
        requires
            cfg.wf(),
        ensures
            r.wf(),
            r.config == cfg,
            r.population.champion is None,
            r.population.max_fitness == 0,
            r.connection_pool@ == Map::<u64, ConnectionGene>::empty(),
            r.node_pool@.dom().len() == cfg.spec_io_count(),
            forall|k: int|
                0 <= k < cfg.spec_io_count() ==> r.node_pool@.contains_key(k as u64)
                    && #[trigger] r.node_pool@[k as u64] == seed_template(&cfg, k),
            forall|i: int|
                0 <= i < r.population.organisms@.len() ==> (
                #[trigger] r.population.organisms@[i])@.conns.len() == 0 && r.population.organisms@[i]@.nodes.len()
                    == cfg.spec_io_count(),
            forall|i: int, j: int|
                0 <= i < r.population.organisms@.len() && 0 <= j < cfg.spec_io_count()
                    ==> #[trigger] r.population.organisms@[i]@.nodes[j] == seed_template(&cfg, j),
    {
        let node_pool = Neat::seed_node_pool(&cfg);
        let population = Population::new(&node_pool, &cfg);
        let connection_pool: HashMap<u64, ConnectionGene> = HashMap::new();
        proof {
            assert forall|i: int|
                0 <= i < population.organisms@.len() implies conn_aligned(
                (#[trigger] population.organisms@[i])@,
                connection_pool@,
            ) by {
                assert(population.organisms@[i]@.conns.len() == 0);
            }
        }
        Neat { node_pool, connection_pool, population, config: cfg }
    }

    /// A fresh engine whose genomes start fully connected: the connection
    /// registry is seeded with one template from every input or bias node to
    /// every output node, markers counted off in that order.
    pub fn new_fully_connected(cfg: Config) -> (r: Neat)
        requires
            cfg.wf(),
        ensures
            r.wf(),
            r.config == cfg,
            r.population.champion is None,
            r.population.max_fitness == 0,
    {
        let node_pool = Neat::seed_node_pool(&cfg);
        let mut connection_pool: HashMap<u64, ConnectionGene> = HashMap::new();
        let ib = cfg.input_count();
        let ibo = cfg.io_count();
        let mut conn_inno: u64 = 0;
        let mut from: usize = 0;
        while from < ib
            invariant
                cfg.wf(),
                ib == cfg.spec_input_count(),
                ibo == cfg.spec_io_count(),
                from <= ib,
                conn_inno == from * cfg.outputs,
                conn_pool_wf(connection_pool@),
                connection_pool@.dom().len() == conn_inno,
                forall|k: u64|
                    #[trigger] connection_pool@.contains_key(k) ==> connection_pool@[k].from()
                        < from && cfg.spec_input_count() <= connection_pool@[k].to()
                        < cfg.spec_io_count(),
                forall|f: int, t: int|
                    #![trigger crate::connection_gene::spec_conn_hashcode(f as u64, t as u64)]
                    0 <= f < from && cfg.spec_input_count() <= t < cfg.spec_io_count() ==> {
                        &&& connection_pool@.contains_key(
                            crate::connection_gene::spec_conn_hashcode(f as u64, t as u64),
                        )
                        &&& connection_pool@[crate::connection_gene::spec_conn_hashcode(
                            f as u64,
                            t as u64,
                        )].from() == f
                        &&& connection_pool@[crate::connection_gene::spec_conn_hashcode(
                            f as u64,
                            t as u64,
                        )].to() == t
                        &&& connection_pool@[crate::connection_gene::spec_conn_hashcode(
                            f as u64,
                            t as u64,
                        )].marker() == f * cfg.outputs + (t - cfg.spec_input_count())
                        &&& connection_pool@[crate::connection_gene::spec_conn_hashcode(
                            f as u64,
                            t as u64,
                        )].enabled()
                    },
            decreases ib - from,
        {
            let mut t: usize = 0;
            while t < cfg.outputs
                invariant
                    cfg.wf(),
                    ib == cfg.spec_input_count(),
                    ibo == cfg.spec_io_count(),
                    from < ib,
                    t <= cfg.outputs,
                    conn_inno == from * cfg.outputs + t,
                    conn_pool_wf(connection_pool@),
                    connection_pool@.dom().len() == conn_inno,
                    forall|k: u64|
                        #[trigger] connection_pool@.contains_key(k) ==> (connection_pool@[k].from()
                            < from || (connection_pool@[k].from() == from
                            && connection_pool@[k].to() < cfg.spec_input_count() + t))
                            && connection_pool@[k].from() < ib && cfg.spec_input_count()
                            <= connection_pool@[k].to() < cfg.spec_io_count(),
                    forall|f2: int, t2: int|
                        #![trigger crate::connection_gene::spec_conn_hashcode(f2 as u64, t2 as u64)]
                        0 <= f2 < ib && cfg.spec_input_count() <= t2 < cfg.spec_io_count() && (f2
                            < from || (f2 == from && t2 < cfg.spec_input_count() + t)) ==> {
                            &&& connection_pool@.contains_key(
                                crate::connection_gene::spec_conn_hashcode(f2 as u64, t2 as u64),
                            )
                            &&& connection_pool@[crate::connection_gene::spec_conn_hashcode(
                                f2 as u64,
                                t2 as u64,
                            )].from() == f2
                            &&& connection_pool@[crate::connection_gene::spec_conn_hashcode(
                                f2 as u64,
                                t2 as u64,
                            )].to() == t2
                            &&& connection_pool@[crate::connection_gene::spec_conn_hashcode(
                                f2 as u64,
                                t2 as u64,
                            )].marker() == f2 * cfg.outputs + (t2 - cfg.spec_input_count())
                            &&& connection_pool@[crate::connection_gene::spec_conn_hashcode(
                                f2 as u64,
                                t2 as u64,
                            )].enabled()
                        },
                decreases cfg.outputs - t,
            {
                proof {
                    crate::genome::mul_bounds(from as int, ib as int, cfg.outputs as int);
                }
                let to = ib + t;
                let key = conn_hashcode(from as u64, to as u64);
                let c = ConnectionGene::new(conn_inno, from as u64, to as u64, cfg.weight_random_max);
                proof {
                    let p0 = connection_pool@;
                    if p0.contains_key(key) {
                        // the pool holds only pairs already walked, and the
                        // hash code pins the endpoints, so this pair is new
                        crate::connection_gene::lemma_conn_hashcode_injective(
                            p0[key].from(),
                            p0[key].to(),
                            from as u64,
                            to as u64,
                        );
                        assert(false);
                    }
                    crate::genome::mul_bounds(from as int, ib as int, cfg.outputs as int);
                    assert(ib * cfg.outputs < u64::MAX) by (nonlinear_arith)
                        requires
                            0 <= ib < crate::config::MAX_NODES,
                            0 <= cfg.outputs < crate::config::MAX_NODES,
                    {
                    }
                }
                connection_pool.insert(key, c);
                proof {
                    let p1 = connection_pool@;
                    assert(p1.dom().len() == conn_inno + 1);
                    assert forall|k1: u64, k2: u64|
                        p1.contains_key(k1) && p1.contains_key(k2) && k1 != k2 implies (
                    #[trigger] p1[k1]).marker() != (#[trigger] p1[k2]).marker() by {
                        if k1 != key && k2 != key {
                        } else if k1 == key {
                            assert(p1[k2].marker() < conn_inno);
                        } else {
                            assert(p1[k1].marker() < conn_inno);
                        }
                    }
                }
                conn_inno = conn_inno + 1;
                t += 1;
            }
            from += 1;
            proof {
                assert(from * cfg.outputs == (from - 1) * cfg.outputs + cfg.outputs)
                    by (nonlinear_arith);
            }
        }
        proof {
            assert(fully_connected_pool(connection_pool@, &cfg));
        }
        let population = Population::new_fully_connected(&node_pool, &connection_pool, &cfg);
        Neat { node_pool, connection_pool, population, config: cfg }
    }

    /// The input, bias and output node templates, keyed by their own
    /// markers, spread over the left and right edges of the layout.
    fn seed_node_pool(cfg: &Config) -> (r: HashMap<u64, NodeGene>)
        requires
            cfg.wf(),
        ensures
            node_pool_wf(r@, cfg.spec_io_count()),
            r@.dom().len() == cfg.spec_io_count(),
            forall|k: int| 0 <= k < cfg.spec_io_count() ==> #[trigger] r@[k as u64]
                == seed_template(cfg, k),
    {
        let ib = cfg.input_count();
        let ibo = cfg.io_count();
        let mut pool: HashMap<u64, NodeGene> = HashMap::new();
        let mut i: usize = 0;
        while i < ibo
            invariant
                cfg.wf(),
                ib == cfg.spec_input_count(),
                ibo == cfg.spec_io_count(),
                i <= ibo,
                pool@.dom().finite(),
                pool@.dom().len() == i,
                forall|k: u64| k < i ==> #[trigger] pool@.contains_key(k),
                forall|k: u64|
                    #[trigger] pool@.contains_key(k) ==> k < i && pool@[k].marker() == k
                        && pool@[k] == seed_template(cfg, k as int),
            decreases ibo - i,
        {
            let node_type = if i < cfg.inputs {
                NodeType::Input
            } else if cfg.bias && i < ib {
                NodeType::Bias
            } else {
                NodeType::Output
            };
            let x: u64 = if i < ib {
                0
            } else {
                1000
            };
            let (pos, den) = if i < ib {
                (i, ib)
            } else {
                (i - ib, cfg.outputs)
            };
            proof {
                assert(((pos as u128) + 1) * 1000 <= ((den as u128) + 1) * 1000)
                    by (nonlinear_arith)
                    requires
                        (pos as u128) + 1 <= (den as u128) + 1,
                {
                }
                assert((((pos as u128) + 1) * 1000) / ((den as u128) + 1) <= 1000)
                    by (nonlinear_arith)
                    requires
                        ((pos as u128) + 1) * 1000 <= ((den as u128) + 1) * 1000,
                        (den as u128) + 1 >= 1,
                {
                }
            }
            let y: u64 = (1000 - ((((pos as u128) + 1) * 1000) / ((den as u128) + 1))) as u64;
            let n = NodeGene::new(node_type, i as u64, x, y);
            proof {
                assert(!pool@.contains_key(i as u64));
                assert(n == seed_template(cfg, i as int));
            }
            pool.insert(i as u64, n);
            i += 1;
        }
        proof {
            assert forall|k1: u64, k2: u64|
                pool@.contains_key(k1) && pool@.contains_key(k2) && k1 != k2 implies (
            #[trigger] pool@[k1]).marker() != (#[trigger] pool@[k2]).marker() by {
                assert(pool@[k1].marker() == k1 && pool@[k2].marker() == k2);
            }
            assert forall|j: int| 0 <= j < ibo implies #[trigger] pool@.contains_key(
                j as u64,
            ) by {
                assert((j as u64) < ibo);
            }
            assert forall|j: int| 0 <= j < ibo implies (#[trigger] pool@[j as u64]).marker()
                == j by {
                assert(pool@.contains_key(j as u64));
            }
            assert forall|j: int| 0 <= j < ibo implies #[trigger] pool@[j as u64]
                == seed_template(cfg, j) by {
                assert(pool@.contains_key(j as u64));
            }
        }
        pool
    }

    /// Applies the mutation operators to every genome of the population
    /// that is not an unmutated elite survivor, at the configured
    /// probabilities, consulting the registries so that identical structural
    /// mutations in different genomes receive identical markers.
    pub fn mutate(&mut self)
        requires
            old(self).wf(),
        ensures
            final(self).wf(),
            final(self).config == old(self).config,
            final(self).population.champion == old(self).population.champion,
            final(self).population.max_fitness == old(self).population.max_fitness,
            map_extends(final(self).connection_pool@, old(self).connection_pool@),
            map_extends(final(self).node_pool@, old(self).node_pool@),
            final(self).population.organisms@.len() == old(self).population.organisms@.len(),
            forall|i: int|
                0 <= i < old(self).population.organisms@.len() && !old(
                    self,
                ).population.to_mutate@[i] ==> final(self).population.organisms@[i] == #[trigger] old(
                    self,
                ).population.organisms@[i],
            forall|i: int|
                0 <= i < old(self).population.organisms@.len() && old(
                    self,
                ).population.to_mutate@[i] ==> mutated_by_operators(
                    (#[trigger] old(self).population.organisms@[i])@,
                    final(self).population.organisms@[i]@,
                    &old(self).config,
                ),
    {
        let n = self.population.organisms.len();
        let mut i: usize = 0;
        while i < n
            invariant
                self.config == old(self).config,
                self.config.wf(),
                n == self.population.organisms@.len(),
                i <= n,
                old(self).wf(),
                self.population.organisms@.len() == old(self).population.organisms@.len(),
                self.population.fitness_arr == old(self).population.fitness_arr,
                self.population.to_mutate == old(self).population.to_mutate,
                self.population.champion == old(self).population.champion,
                self.population.max_fitness == old(self).population.max_fitness,
                self.population.species_vec == old(self).population.species_vec,
                self.population.compatability_threshold == old(self).population.compatability_threshold,
                self.population.pop_avg_adj_fit == old(self).population.pop_avg_adj_fit,
                self.population.species_id_counter == old(self).population.species_id_counter,
                self.population.generation == old(self).population.generation,
                self.population.gens_stagnated == old(self).population.gens_stagnated,
                node_pool_wf(self.node_pool@, self.config.spec_io_count()),
                conn_pool_wf(self.connection_pool@),
                map_extends(self.connection_pool@, old(self).connection_pool@),
                map_extends(self.node_pool@, old(self).node_pool@),
                forall|k: int|
                    0 <= k < self.population.organisms@.len() ==> (
                    #[trigger] self.population.organisms@[k])@.wf()
                        && self.population.organisms@[k]@.closed()
                        && self.population.organisms@[k]@.bounded(),
                forall|k: int|
                    0 <= k < self.population.organisms@.len() ==> conn_aligned(
                        (#[trigger] self.population.organisms@[k])@,
                        self.connection_pool@,
                    ),
                old(self).population.champion is Some ==> conn_aligned(
                    old(self).population.champion->0@,
                    self.connection_pool@,
                ),
                forall|j: int|
                    i <= j < self.population.organisms@.len()
                        ==> #[trigger] self.population.organisms@[j] == old(
                        self,
                    ).population.organisms@[j],
                forall|j: int|
                    0 <= j < i && !old(self).population.to_mutate@[j]
                        ==> #[trigger] self.population.organisms@[j] == old(
                        self,
                    ).population.organisms@[j],
                forall|j: int|
                    0 <= j < i && old(self).population.to_mutate@[j] ==> mutated_by_operators(
                        (#[trigger] old(self).population.organisms@[j])@,
                        self.population.organisms@[j]@,
                        &old(self).config,
                    ),
            decreases n - i,
        {
            if self.population.should_mutate(i) {
                let mut g = self.population.organisms[i].clone();
                let ghost cp_before = self.connection_pool@;
                mutate_genome(
                    &mut g,
                    &mut self.node_pool,
                    &mut self.connection_pool,
                    &self.config,
                );
                proof {
                    assert forall|k: int|
                        0 <= k < self.population.organisms@.len() implies conn_aligned(
                        (#[trigger] self.population.organisms@[k])@,
                        self.connection_pool@,
                    ) by {
                        lemma_aligned_extends(
                            self.population.organisms@[k]@,
                            cp_before,
                            self.connection_pool@,
                        );
                    }
                    if old(self).population.champion is Some {
                        lemma_aligned_extends(
                            old(self).population.champion->0@,
                            cp_before,
                            self.connection_pool@,
                        );
                    }
                    crate::pools::lemma_map_extends_trans(
                        old(self).connection_pool@,
                        cp_before,
                        self.connection_pool@,
                    );
                }
                self.population.organisms.set(i, g);
            }
            i += 1;
        }
        proof {
            lemma_all_aligned_consistent(
                self.population.organisms@,
                self.population.champion,
                self.connection_pool@,
            );
        }
    }

    /// Runs the full loop — evaluate, speciate, reproduce, mutate — until
    /// the champion's fitness reaches the target, and returns a copy of the
    /// champion. Gives up (keeping the engine invariant intact) when the
    /// generation budget runs out before the target is reached, or when a
    /// champion is needed but none exists.
    pub fn train<F: Fn(&Genome) -> u64 + Copy>(
        &mut self,
        env: F,
        target_fitness: u64,
        max_generations: u64,
    ) -> (r: Result<Genome, NeatError>)
        requires
            old(self).wf(),
            forall|g: &Genome| #[trigger] call_requires(env, (g,)),
        ensures
            final(self).wf(),
            r is Ok ==> final(self).population.max_fitness >= target_fitness
                && final(self).population.champion is Some && r->Ok_0@ == final(self).population.champion->0@,
            r == Result::<Genome, NeatError>::Err(NeatError::GenerationLimit) ==> final(self).population.max_fitness
                < target_fitness,
            r == Result::<Genome, NeatError>::Err(NeatError::MissingChampion) ==> final(self).population.champion is None,
    {
        let mut gens: u64 = 0;
        loop
            invariant
                self.wf(),
                self.config == old(self).config,
                forall|g: &Genome| #[trigger] call_requires(env, (g,)),
                gens <= max_generations,
            decreases max_generations - gens,
        {
            self.calculate_fitnesses(env);
            if self.population.max_fitness >= target_fitness {
                match &self.population.champion {
                    Some(g) => {
                        return Ok(g.clone());
                    },
                    None => {
                        return Err(NeatError::MissingChampion);
                    },
                }
            }
            if gens == max_generations {
                return Err(NeatError::GenerationLimit);
            }
            self.population.speciate(&self.config);
            let ghost pre_orgs = self.population.organisms@;
            let ghost pre_champ = self.population.champion;
            let stepped = self.population.reproduce(&self.config);
            match stepped {
                Ok(()) => {},
                Err(e) => {
                    return Err(e);
                },
            }
            proof {
                assert forall|k: int|
                    0 <= k < self.population.organisms@.len() implies conn_aligned(
                    (#[trigger] self.population.organisms@[k])@,
                    self.connection_pool@,
                ) by {
                    lemma_from_pop_aligned(
                        self.population.organisms@[k]@,
                        pre_orgs,
                        pre_champ,
                        self.connection_pool@,
                    );
                }
            }
            self.mutate();
            gens = gens + 1;
        }
    }

    /// Evaluates every genome with the fitness function and records the
    /// buffer, keeping the engine invariant (the champion stays aligned
    /// because it is a copy of an organism).
    pub fn calculate_fitnesses<F: Fn(&Genome) -> u64>(&mut self, env: F)
        requires
            old(self).wf(),
            forall|g: &Genome| #[trigger] call_requires(env, (g,)),
        ensures
            final(self).wf(),
            final(self).config == old(self).config,
            final(self).population.organisms == old(self).population.organisms,
            final(self).node_pool == old(self).node_pool,
            final(self).connection_pool == old(self).connection_pool,
            final(self).population.max_fitness >= old(self).population.max_fitness,
    {
        let ghost old_max = self.population.max_fitness;
        self.population.calculate_fitnesses(env, &self.config);
        proof {
            if self.population.max_fitness > old_max {
                let k = choose|k: int|
                    0 <= k < old(self).population.organisms@.len() && self.population.champion->0@
                        == (#[trigger] old(self).population.organisms@[k])@;
                assert(conn_aligned(
                    old(self).population.organisms@[k]@,
                    self.connection_pool@,
                ));
                assert(self.population.champion->0@.conns == old(
                    self,
                ).population.organisms@[k]@.conns);
            }
        }
    }

    /// A debugging engine around the hand-built XOR registries: the six XOR
    /// nodes as templates, the nine XOR connection templates with their
    /// hand-picked weights, and a population of initialized genomes.
    pub fn new_xor() -> (r: Neat)
        ensures
            r.wf(),
            r.population.champion is None,
    {
        let cfg = Config::default_config();
        let node_pool = NodeGene::xor_node_gene_pool();
        let mut connection_pool: HashMap<u64, ConnectionGene> = HashMap::new();
        crate::pools::seed_connection_template(&mut connection_pool, 0, 4, 20000);
        crate::pools::seed_connection_template(&mut connection_pool, 0, 5, -20000);
        crate::pools::seed_connection_template(&mut connection_pool, 1, 4, 20000);
        crate::pools::seed_connection_template(&mut connection_pool, 1, 5, -20000);
        crate::pools::seed_connection_template(&mut connection_pool, 4, 3, 20000);
        crate::pools::seed_connection_template(&mut connection_pool, 5, 3, 20000);
        crate::pools::seed_connection_template(&mut connection_pool, 2, 4, 10000);
        crate::pools::seed_connection_template(&mut connection_pool, 2, 5, -30000);
        crate::pools::seed_connection_template(&mut connection_pool, 2, 3, 30000);
        let population = Population::new(&node_pool, &cfg);
        proof {
            assert forall|i: int|
                0 <= i < population.organisms@.len() implies conn_aligned(
                (#[trigger] population.organisms@[i])@,
                connection_pool@,
            ) by {
                assert(population.organisms@[i]@.conns.len() == 0);
            }
        }
        Neat { node_pool, connection_pool, population, config: cfg }
    }

    pub fn get_population(&self) -> (r: &Population)
        ensures
            r == &self.population,
    {
        &self.population
    }

    pub fn get_node_pool(&self) -> (r: &HashMap<u64, NodeGene>)
        ensures
            r == &self.node_pool,
    {
        &self.node_pool
    }

    pub fn get_connection_pool(&self) -> (r: &HashMap<u64, ConnectionGene>)
        ensures
            r == &self.connection_pool,
    {
        &self.connection_pool
    }
}

/// Applies the mutation phase to the engine: the free-function entry point
/// callers of the engine use.
pub fn mutate(neat: &mut Neat)
    requires
        old(neat).wf(),
    ensures
        final(neat).wf(),
        final(neat).config == old(neat).config,
        final(neat).population.champion == old(neat).population.champion,
        final(neat).population.max_fitness == old(neat).population.max_fitness,
        final(neat).population.organisms@.len() == old(neat).population.organisms@.len(),
        forall|i: int|
            0 <= i < old(neat).population.organisms@.len() && !old(
                neat,
            ).population.to_mutate@[i] ==> final(neat).population.organisms@[i] == #[trigger] old(
                neat,
            ).population.organisms@[i],
        forall|i: int|
            0 <= i < old(neat).population.organisms@.len() && old(
                neat,
            ).population.to_mutate@[i] ==> mutated_by_operators(
                (#[trigger] old(neat).population.organisms@[i])@,
                final(neat).population.organisms@[i]@,
                &old(neat).config,
            ),
{
    neat.mutate();
}

/// Alignment of every genome (and the champion) with one registry makes the
/// population mutually consistent.
proof fn lemma_all_aligned_consistent(
    orgs: Seq<Genome>,
    champ: Option<Genome>,
    cp: Map<u64, ConnectionGene>,
)
    requires
        conn_pool_wf(cp),
        forall|k: int| 0 <= k < orgs.len() ==> conn_aligned((#[trigger] orgs[k])@, cp),
        champ is Some ==> conn_aligned(champ->0@, cp),
    ensures
        pop_consistent(orgs, champ),
{
    assert forall|a: int, b: int|
        0 <= a < orgs.len() && 0 <= b < orgs.len() implies crate::crossover::marker_consistent(
        (#[trigger] orgs[a])@.conns,
        (#[trigger] orgs[b])@.conns,
    ) by {
        lemma_aligned_consistent(orgs[a]@.conns, orgs[b]@.conns, cp);
    }
    if champ is Some {
        assert forall|a: int|
            0 <= a < orgs.len() implies crate::crossover::marker_consistent(
            champ->0@.conns,
            (#[trigger] orgs[a])@.conns,
        ) && crate::crossover::marker_consistent((orgs[a])@.conns, champ->0@.conns) by {
            lemma_aligned_consistent(champ->0@.conns, orgs[a]@.conns, cp);
            lemma_aligned_consistent(orgs[a]@.conns, champ->0@.conns, cp);
        }
        lemma_aligned_consistent(champ->0@.conns, champ->0@.conns, cp);
    }
}

} // verus!
