use vstd::prelude::*;

use std::collections::HashMap;

use crate::config::Config;
use crate::connection_gene::ConnectionGene;
use crate::crossover::{contains_gene, crossover, crossover_shape, marker_consistent};
use crate::distance::{clamp_u64, distance, spec_distance};
use crate::fixtures::xor_conns;
use crate::genome::{conn_aligned, lemma_aligned_consistent, Genome, GenomeView};
use crate::node_gene::NodeGene;
use crate::pools::{conn_pool_wf, node_pool_wf};
use crate::species::{
    contains_member, id_count, lemma_id_count_nonneg, sorted_by_fitness_desc, Member, Species,
};
use crate::vecset::{markers_sorted, Gene};

verus! {

/// The ways a run halts on a state that signals a programming or
/// configuration error rather than a recoverable condition.
#[derive(Clone, Copy, Debug, PartialEq, Eq, Structural)]
pub enum NeatError {
    /// Reproduction needed to pad the population but no champion exists yet.
    MissingChampion,
    /// Training ran out of its generation budget before reaching the target.
    GenerationLimit,
}

/// How often the organism index occurs across all species' member lists.
pub open spec fn times_assigned(sv: Seq<Species>, id: usize) -> int
    decreases sv.len(),
{
    if sv.len() == 0 {
        0
    } else {
        times_assigned(sv.drop_last(), id) + id_count(sv.last().members@, id)
    }
}

proof fn lemma_times_push(sv: Seq<Species>, s: Species)
    ensures
        forall|id: usize|
            #[trigger] times_assigned(sv.push(s), id) == times_assigned(sv, id) + id_count(
                s.members@,
                id,
            ),
{
    assert forall|id: usize|
        #[trigger] times_assigned(sv.push(s), id) == times_assigned(sv, id) + id_count(
            s.members@,
            id,
        ) by {
        assert(sv.push(s).drop_last() =~= sv);
    }
}

proof fn lemma_times_insert(sv: Seq<Species>, p: int, s: Species)
    requires
        0 <= p <= sv.len(),
    ensures
        forall|id: usize|
            #[trigger] times_assigned(sv.insert(p, s), id) == times_assigned(sv, id) + id_count(
                s.members@,
                id,
            ),
    decreases sv.len(),
{
    let s1 = sv.insert(p, s);
    if p == sv.len() {
        assert(s1 =~= sv.push(s));
        lemma_times_push(sv, s);
    } else {
        lemma_times_insert(sv.drop_last(), p, s);
        assert forall|id: usize|
            #[trigger] times_assigned(s1, id) == times_assigned(sv, id) + id_count(
                s.members@,
                id,
            ) by {
            assert(s1.drop_last() =~= sv.drop_last().insert(p, s));
            assert(s1.last() == sv.last());
            assert(times_assigned(sv.drop_last().insert(p, s), id) == times_assigned(
                sv.drop_last(),
                id,
            ) + id_count(s.members@, id));
            assert(s1.len() > 0);
            assert(times_assigned(s1, id) == times_assigned(s1.drop_last(), id) + id_count(
                s1.last().members@,
                id,
            ));
            assert(times_assigned(sv, id) == times_assigned(sv.drop_last(), id) + id_count(
                sv.last().members@,
                id,
            ));
        }
    }
}

proof fn lemma_times_remove(sv: Seq<Species>, p: int)
    requires
        0 <= p < sv.len(),
    ensures
        forall|id: usize|
            #[trigger] times_assigned(sv.remove(p), id) == times_assigned(sv, id) - id_count(
                sv[p].members@,
                id,
            ),
    decreases sv.len(),
{
    let s1 = sv.remove(p);
    if p == sv.len() - 1 {
        assert(s1 =~= sv.drop_last());
    } else {
        lemma_times_remove(sv.drop_last(), p);
        assert forall|id: usize|
            #[trigger] times_assigned(s1, id) == times_assigned(sv, id) - id_count(
                sv[p].members@,
                id,
            ) by {
            assert(s1.drop_last() =~= sv.drop_last().remove(p));
            assert(s1.last() == sv.last());
            assert(sv.drop_last()[p] == sv[p]);
            assert(times_assigned(sv.drop_last().remove(p), id) == times_assigned(
                sv.drop_last(),
                id,
            ) - id_count(sv.drop_last()[p].members@, id));
            if s1.len() > 0 {
                assert(times_assigned(s1, id) == times_assigned(s1.drop_last(), id) + id_count(
                    s1.last().members@,
                    id,
                ));
            }
            assert(times_assigned(sv, id) == times_assigned(sv.drop_last(), id) + id_count(
                sv.last().members@,
                id,
            ));
        }
    }
}

proof fn lemma_times_all_empty(sv: Seq<Species>)
    requires
        forall|j: int| 0 <= j < sv.len() ==> (#[trigger] sv[j]).members@.len() == 0,
    ensures
        forall|id: usize| #[trigger] times_assigned(sv, id) == 0,
    decreases sv.len(),
{
    if sv.len() > 0 {
        assert forall|j: int|
            0 <= j < sv.drop_last().len() implies (#[trigger] sv.drop_last()[j]).members@.len()
            == 0 by {
            assert(sv[j].members@.len() == 0);
        }
        lemma_times_all_empty(sv.drop_last());
        assert forall|id: usize| #[trigger] times_assigned(sv, id) == 0 by {
            assert(times_assigned(sv.drop_last(), id) == 0);
            assert(sv.last().members@ =~= Seq::<Member>::empty());
            assert(id_count(Seq::<Member>::empty(), id) == 0);
        }
    }
}

/// A genome's genes all occur in the given population's organisms or in its
/// champion, the sources reproduction draws from.
pub open spec fn gene_in_pop(orgs: Seq<Genome>, champ: Option<Genome>, c: ConnectionGene) -> bool {
    ||| exists|k: int|
        0 <= k < orgs.len() && contains_gene((#[trigger] orgs[k])@.conns, c)
    ||| (champ is Some && contains_gene(champ->0@.conns, c))
}

/// Within one run every pair of genomes agrees on the endpoints a marker
/// stands for; reproduction relies on this when it mixes parents.
pub open spec fn pop_consistent(orgs: Seq<Genome>, champ: Option<Genome>) -> bool {
    &&& forall|a: int, b: int|
        0 <= a < orgs.len() && 0 <= b < orgs.len() ==> marker_consistent(
            (#[trigger] orgs[a])@.conns,
            (#[trigger] orgs[b])@.conns,
        )
    &&& champ is Some ==> forall|a: int|
        0 <= a < orgs.len() ==> marker_consistent(champ->0@.conns, (#[trigger] orgs[a])@.conns)
            && marker_consistent((orgs[a])@.conns, champ->0@.conns)
    &&& champ is Some ==> marker_consistent(champ->0@.conns, champ->0@.conns)
}

/// A well-formed gene list agrees with itself on marker structure.
pub proof fn lemma_self_consistent(s: Seq<ConnectionGene>)
    requires
        markers_sorted(s),
    ensures
        marker_consistent(s, s),
{
    assert forall|i: int, j: int|
        0 <= i < s.len() && 0 <= j < s.len() && (#[trigger] s[i]).marker() == (
        #[trigger] s[j]).marker() implies s[i].from() == s[j].from() && s[i].to() == s[j].to() by {
        if i < j {
            assert(s[i].marker() < s[j].marker());
        } else if j < i {
            assert(s[j].marker() < s[i].marker());
        }
    }
}

/// The container for all genomes, the per-generation fitness buffer, the
/// species list, the adaptive compatibility threshold and the all-time
/// champion.
pub struct Population {
    pub champion: Option<Genome>,
    pub organisms: Vec<Genome>,
    pub to_mutate: Vec<bool>,
    pub fitness_arr: Vec<u64>,
    pub max_fitness: u64,
    pub species_vec: Vec<Species>,
    pub compatability_threshold: u64,
    pub pop_avg_adj_fit: u64,
    pub species_id_counter: u64,
    pub generation: u64,
    pub gens_stagnated: u64,
}

impl Population {
    /// The population invariant: fixed size across generations, a
    /// floor-bounded compatibility threshold, well-formed genomes
    /// everywhere, and species membership pointing into the population.
    pub open spec fn wf(&self, cfg: &Config) -> bool {
        &&& self.organisms@.len() == cfg.population_size
        &&& self.fitness_arr@.len() == cfg.population_size
        &&& self.to_mutate@.len() == cfg.population_size
        &&& self.compatability_threshold >= cfg.compat_min
        &&& forall|i: int|
            0 <= i < self.organisms@.len() ==> (#[trigger] self.organisms@[i])@.wf()
                && self.organisms@[i]@.closed() && self.organisms@[i]@.bounded()
        &&& self.champion is Some ==> self.champion->0@.wf() && self.champion->0@.closed()
            && self.champion->0@.bounded()
        &&& forall|j: int|
            0 <= j < self.species_vec@.len() ==> (#[trigger] self.species_vec@[j]).members_in(
                cfg.population_size as int,
            ) && self.species_vec@[j].representative@.wf()
        &&& pop_consistent(self.organisms@, self.champion)
    }

    /// A population of initialized genomes (input, bias and output nodes,
    /// no connections).
    pub fn new(node_pool: &HashMap<u64, NodeGene>, cfg: &Config) -> (r: Population)
        requires
            cfg.wf(),
            node_pool_wf(node_pool@, cfg.spec_io_count()),
        ensures
            r.wf(cfg),
            r.champion is None,
            r.max_fitness == 0,
            r.generation == 0,
            r.species_vec@.len() == 0,
            r.compatability_threshold == cfg.compat_threshold,
            forall|i: int|
                0 <= i < r.organisms@.len() ==> (#[trigger] r.organisms@[i])@.conns.len() == 0
                    && r.organisms@[i]@.nodes.len() == cfg.spec_io_count(),
            forall|i: int, j: int|
                0 <= i < r.organisms@.len() && 0 <= j < cfg.spec_io_count()
                    ==> #[trigger] r.organisms@[i]@.nodes[j] == node_pool@[j as u64],
    {
        let mut organisms: Vec<Genome> = Vec::new();
        let mut i: usize = 0;
        while i < cfg.population_size
            invariant
                cfg.wf(),
                node_pool_wf(node_pool@, cfg.spec_io_count()),
                i <= cfg.population_size,
                organisms@.len() == i,
                forall|j: int|
                    0 <= j < i ==> (#[trigger] organisms@[j])@.wf() && organisms@[j]@.closed()
                        && organisms@[j]@.bounded() && organisms@[j]@.conns.len() == 0
                        && organisms@[j]@.nodes.len() == cfg.spec_io_count(),
                forall|j: int, k: int|
                    0 <= j < i && 0 <= k < cfg.spec_io_count()
                        ==> #[trigger] organisms@[j]@.nodes[k] == node_pool@[k as u64],
            decreases cfg.population_size - i,
        {
            organisms.push(Genome::new_init(node_pool, cfg));
            i += 1;
        }
        Population::assemble(organisms, cfg)
    }

    /// A population of fully connected genomes: every input or bias node
    /// wired to every output node with the registry's templates.
    pub fn new_fully_connected(
        node_pool: &HashMap<u64, NodeGene>,
        conn_pool: &HashMap<u64, ConnectionGene>,
        cfg: &Config,
    ) -> (r: Population)
        requires
            cfg.wf(),
            node_pool_wf(node_pool@, cfg.spec_io_count()),
            conn_pool_wf(conn_pool@),
            crate::genome::fully_connected_pool(conn_pool@, cfg),
        ensures
            r.wf(cfg),
            r.champion is None,
            r.max_fitness == 0,
            r.generation == 0,
            r.compatability_threshold == cfg.compat_threshold,
            forall|i: int|
                0 <= i < r.organisms@.len() ==> conn_aligned(
                    (#[trigger] r.organisms@[i])@,
                    conn_pool@,
                ),
    {
        let mut organisms: Vec<Genome> = Vec::new();
        let mut i: usize = 0;
        while i < cfg.population_size
            invariant
                cfg.wf(),
                node_pool_wf(node_pool@, cfg.spec_io_count()),
                conn_pool_wf(conn_pool@),
                crate::genome::fully_connected_pool(conn_pool@, cfg),
                i <= cfg.population_size,
                organisms@.len() == i,
                forall|j: int|
                    0 <= j < i ==> (#[trigger] organisms@[j])@.wf() && organisms@[j]@.closed()
                        && organisms@[j]@.bounded(),
                forall|j: int| 0 <= j < i ==> conn_aligned((#[trigger] organisms@[j])@, conn_pool@),
            decreases cfg.population_size - i,
        {
            let g = Genome::new_fully_connected(node_pool, conn_pool, cfg);
            organisms.push(g);
            i += 1;
        }
        proof {
            assert forall|a: int, b: int|
                0 <= a < organisms@.len() && 0 <= b < organisms@.len() implies (
            #[trigger] organisms@[a])@.conns == (#[trigger] organisms@[b])@.conns
                || marker_consistent(organisms@[a]@.conns, organisms@[b]@.conns) by {
                lemma_aligned_consistent(
                    organisms@[a]@.conns,
                    organisms@[b]@.conns,
                    conn_pool@,
                );
            }
        }
        Population::assemble(organisms, cfg)
    }

    /// A population of hand-built XOR genomes.
    pub fn new_xor(cfg: &Config) -> (r: Population)
        requires
            cfg.wf(),
        ensures
            r.wf(cfg),
            r.champion is None,
            r.max_fitness == 0,
            r.generation == 0,
            r.compatability_threshold == cfg.compat_threshold,
    {
        let mut organisms: Vec<Genome> = Vec::new();
        let mut i: usize = 0;
        while i < cfg.population_size
            invariant
                cfg.wf(),
                i <= cfg.population_size,
                organisms@.len() == i,
                forall|j: int|
                    0 <= j < i ==> (#[trigger] organisms@[j])@.wf() && organisms@[j]@.closed()
                        && organisms@[j]@.bounded() && organisms@[j]@.conns == xor_conns(),
            decreases cfg.population_size - i,
        {
            organisms.push(Genome::new_init_xor());
            i += 1;
        }
        Population::assemble(organisms, cfg)
    }

    /// Wraps a vector of well-formed, mutually consistent genomes into a
    /// fresh population.
    fn assemble(organisms: Vec<Genome>, cfg: &Config) -> (r: Population)
        requires
            cfg.wf(),
            organisms@.len() == cfg.population_size,
            forall|i: int|
                0 <= i < organisms@.len() ==> (#[trigger] organisms@[i])@.wf()
                    && organisms@[i]@.closed() && organisms@[i]@.bounded(),
            forall|a: int, b: int|
                0 <= a < organisms@.len() && 0 <= b < organisms@.len() ==> (
                #[trigger] organisms@[a])@.conns == (#[trigger] organisms@[b])@.conns
                    || marker_consistent(organisms@[a]@.conns, organisms@[b]@.conns),
        ensures
            r.wf(cfg),
            r.organisms == organisms,
            r.champion is None,
            r.max_fitness == 0,
            r.generation == 0,
            r.species_vec@.len() == 0,
            r.compatability_threshold == cfg.compat_threshold,
    {
        let n = organisms.len();
        let mut to_mutate: Vec<bool> = Vec::new();
        let mut fitness_arr: Vec<u64> = Vec::new();
        let mut i: usize = 0;
        while i < n
            invariant
                i <= n,
                to_mutate@.len() == i,
                fitness_arr@.len() == i,
            decreases n - i,
        {
            to_mutate.push(true);
            fitness_arr.push(0);
            i += 1;
        }
        proof {
            assert forall|a: int, b: int|
                0 <= a < organisms@.len() && 0 <= b < organisms@.len() implies marker_consistent(
                (#[trigger] organisms@[a])@.conns,
                (#[trigger] organisms@[b])@.conns,
            ) by {
                if organisms@[a]@.conns == organisms@[b]@.conns {
                    lemma_self_consistent(organisms@[a]@.conns);
                }
            }
        }
        Population {
            champion: None,
            organisms,
            to_mutate,
            fitness_arr,
            max_fitness: 0,
            species_vec: Vec::new(),
            compatability_threshold: cfg.compat_threshold,
            pop_avg_adj_fit: 0,
            species_id_counter: 0,
            generation: 0,
            gens_stagnated: 0,
        }
    }

    /// Records one generation's fitness values: stores the buffer, updates
    /// the all-time maximum, and replaces the champion with a copy of the
    /// best organism when the maximum improved.
    pub fn record_fitnesses(&mut self, fitnesses: &Vec<u64>, cfg: &Config)
        requires
            cfg.wf(),
            old(self).wf(cfg),
            fitnesses@.len() == cfg.population_size,
        ensures
            final(self).wf(cfg),
            final(self).organisms == old(self).organisms,
            final(self).species_vec == old(self).species_vec,
            final(self).to_mutate == old(self).to_mutate,
            final(self).compatability_threshold == old(self).compatability_threshold,
            final(self).generation == old(self).generation,
            final(self).fitness_arr@ == fitnesses@,
            final(self).max_fitness >= old(self).max_fitness,
            forall|i: int| 0 <= i < fitnesses@.len() ==> fitnesses@[i] <= final(self).max_fitness,
            final(self).max_fitness > old(self).max_fitness || final(self).max_fitness == old(self).max_fitness,
            final(self).max_fitness == old(self).max_fitness ==> final(self).champion == old(self).champion && final(self).gens_stagnated == if old(self).gens_stagnated < u64::MAX {
                old(self).gens_stagnated + 1
            } else {
                old(self).gens_stagnated as int
            },
            final(self).max_fitness > old(self).max_fitness ==> final(self).gens_stagnated == 0
                && final(self).champion is Some && exists|i: int|
                0 <= i < old(self).organisms@.len() && final(self).champion->0@ == (
                #[trigger] old(self).organisms@[i])@ && fitnesses@[i] == final(self).max_fitness,
    {
        if self.gens_stagnated < u64::MAX {
            self.gens_stagnated = self.gens_stagnated + 1;
        }
        let ghost old_stag = self.gens_stagnated;
        let ghost old_max = self.max_fitness;
        let n = self.organisms.len();
        let mut i: usize = 0;
        while i < n
            invariant
                cfg.wf(),
                n == self.organisms@.len(),
                fitnesses@.len() == n,
                i <= n,
                self.organisms == old(self).organisms,
                self.species_vec == old(self).species_vec,
                self.to_mutate == old(self).to_mutate,
                self.fitness_arr == old(self).fitness_arr,
                self.compatability_threshold == old(self).compatability_threshold,
                self.generation == old(self).generation,
                self.pop_avg_adj_fit == old(self).pop_avg_adj_fit,
                self.species_id_counter == old(self).species_id_counter,
                old(self).wf(cfg),
                self.max_fitness >= old(self).max_fitness,
                forall|j: int| 0 <= j < i ==> fitnesses@[j] <= self.max_fitness,
                self.max_fitness == old(self).max_fitness ==> self.champion == old(self).champion
                    && self.gens_stagnated == old_stag,
                self.max_fitness > old(self).max_fitness ==> self.gens_stagnated == 0
                    && self.champion is Some && exists|k: int|
                    0 <= k < old(self).organisms@.len() && self.champion->0@ == (#[trigger] old(self).organisms@[k])@ && fitnesses@[k] == self.max_fitness,
                old_stag == if old(self).gens_stagnated < u64::MAX {
                    old(self).gens_stagnated + 1
                } else {
                    old(self).gens_stagnated as int
                },
            decreases n - i,
        {
            let f = fitnesses[i];
            if f > self.max_fitness {
                self.max_fitness = f;
                self.champion = Some(self.organisms[i].clone());
                self.gens_stagnated = 0;
                proof {
                    assert(self.champion->0@ == old(self).organisms@[i as int]@);
                    assert(fitnesses@[i as int] == self.max_fitness);
                }
            }
            i += 1;
        }
        let mut buf: Vec<u64> = Vec::new();
        let mut j: usize = 0;
        while j < n
            invariant
                n == fitnesses@.len(),
                j <= n,
                buf@.len() == j,
                forall|k: int| 0 <= k < j ==> buf@[k] == fitnesses@[k],
            decreases n - j,
        {
            buf.push(fitnesses[j]);
            j += 1;
        }
        proof {
            assert(buf@ =~= fitnesses@);
        }
        self.fitness_arr = buf;
        proof {
            if self.max_fitness > old(self).max_fitness {
                let k = choose|k: int|
                    0 <= k < old(self).organisms@.len() && self.champion->0@ == (#[trigger] old(self).organisms@[k])@;
                assert(pop_consistent(self.organisms@, self.champion)) by {
                    lemma_consistent_new_champion(
                        old(self).organisms@,
                        old(self).champion,
                        self.champion->0,
                        k,
                    );
                }
            }
        }
    }

    /// Runs every genome through the supplied fitness function, sequentially,
    /// then records the resulting buffer (updating the champion).
    pub fn calculate_fitnesses<F: Fn(&Genome) -> u64>(&mut self, env: F, cfg: &Config)
        requires
            cfg.wf(),
            old(self).wf(cfg),
            forall|g: &Genome| #[trigger] call_requires(env, (g,)),
        ensures
            final(self).wf(cfg),
            final(self).organisms == old(self).organisms,
            final(self).max_fitness >= old(self).max_fitness,
            forall|i: int|
                0 <= i < final(self).fitness_arr@.len() ==> #[trigger] final(self).fitness_arr@[i]
                    <= final(self).max_fitness,
            forall|i: int|
                0 <= i < final(self).fitness_arr@.len() ==> call_ensures(
                    env,
                    (&final(self).organisms@[i],),
                    #[trigger] final(self).fitness_arr@[i],
                ),
            final(self).max_fitness == old(self).max_fitness ==> final(self).champion == old(self).champion,
            final(self).max_fitness > old(self).max_fitness ==> final(self).champion is Some
                && exists|k: int|
                0 <= k < old(self).organisms@.len() && final(self).champion->0@ == (#[trigger] old(self).organisms@[k])@,
    {
        let n = self.organisms.len();
        let mut buf: Vec<u64> = Vec::new();
        let mut i: usize = 0;
        while i < n
            invariant
                n == self.organisms@.len(),
                i <= n,
                buf@.len() == i,
                forall|g: &Genome| #[trigger] call_requires(env, (g,)),
                forall|j: int|
                    0 <= j < i ==> call_ensures(
                        env,
                        (&self.organisms@[j],),
                        #[trigger] buf@[j],
                    ),
                self == old(self),
            decreases n - i,
        {
            let f = env(&self.organisms[i]);
            buf.push(f);
            i += 1;
        }
        self.record_fitnesses(&buf, cfg);
    }


    /// Clears last generation's membership, places every genome with the
    /// species whose representative is nearest (founding a new species, with
    /// the genome itself as representative, when none is within the
    /// compatibility threshold; species founded mid-pass take later genomes
    /// in discovery order), removes species left empty, computes adjusted
    /// fitnesses and sorts members by fitness, and self-tunes the threshold
    /// toward the target species count without letting it fall below its
    /// floor. Afterwards every genome belongs to exactly one species.
    #[verifier::rlimit(100)]
    pub fn speciate(&mut self, cfg: &Config)
        requires
            cfg.wf(),
            old(self).wf(cfg),
        ensures
            final(self).wf(cfg),
            final(self).organisms == old(self).organisms,
            final(self).fitness_arr == old(self).fitness_arr,
            final(self).to_mutate == old(self).to_mutate,
            final(self).champion == old(self).champion,
            final(self).max_fitness == old(self).max_fitness,
            final(self).generation == old(self).generation,
            final(self).gens_stagnated == old(self).gens_stagnated,
            forall|id: usize|
                id < cfg.population_size ==> times_assigned(final(self).species_vec@, id) == 1,
            forall|j: int|
                0 <= j < final(self).species_vec@.len() ==> (#[trigger] final(self).species_vec@[j]).members@.len()
                    > 0 && sorted_by_fitness_desc(final(self).species_vec@[j].members@),
            // every surviving species keeps its id and representative; every
            // other species was founded this generation around one of its
            // own members
            forall|j: int|
                0 <= j < final(self).species_vec@.len() ==> species_provenance(
                    #[trigger] final(self).species_vec@[j],
                    old(self).species_vec@,
                    old(self).organisms@,
                ),
            // every member lies strictly within the old threshold of its
            // species' representative, and at least as close to it as to any
            // representative that survived from the previous generation
            forall|j: int|
                0 <= j < final(self).species_vec@.len() ==> members_within(
                    #[trigger] final(self).species_vec@[j],
                    old(self).organisms@,
                    old(self).compatability_threshold,
                    cfg,
                ) && members_nearest(
                    final(self).species_vec@[j],
                    old(self).organisms@,
                    old(self).species_vec@,
                    cfg,
                ),
            // the threshold self-tunes toward the target species count
            final(self).species_vec@.len() > cfg.target_species ==> final(self).compatability_threshold
                == if old(self).compatability_threshold <= u64::MAX - cfg.compat_modifier {
                old(self).compatability_threshold + cfg.compat_modifier
            } else {
                old(self).compatability_threshold as int
            },
            final(self).species_vec@.len() < cfg.target_species ==> final(self).compatability_threshold
                == if old(self).compatability_threshold >= cfg.compat_modifier && old(self).compatability_threshold
                    - cfg.compat_modifier >= cfg.compat_min {
                old(self).compatability_threshold - cfg.compat_modifier
            } else {
                cfg.compat_min as int
            },
            final(self).species_vec@.len() == cfg.target_species ==> final(self).compatability_threshold
                == old(self).compatability_threshold,
            final(self).compatability_threshold >= cfg.compat_min,
    {
        let pop_size = cfg.population_size;
        let ghost sv_old = old(self).species_vec@;
        let ghost ct0 = old(self).compatability_threshold;
        let ghost orgs0 = old(self).organisms@;

        // reset membership, keeping ids, representatives and stagnation
        let mut old_sv: Vec<Species> = Vec::new();
        core::mem::swap(&mut self.species_vec, &mut old_sv);
        let mut sv: Vec<Species> = Vec::new();
        while old_sv.len() > 0
            invariant
                sv@.len() + old_sv@.len() == sv_old.len(),
                forall|j: int|
                    0 <= j < sv@.len() ==> (#[trigger] sv@[j]).members@.len() == 0
                        && sv@[j].representative@.wf() && sv@[j].id == sv_old[j].id
                        && sv@[j].representative == sv_old[j].representative,
                forall|j: int|
                    0 <= j < old_sv@.len() ==> #[trigger] old_sv@[j] == sv_old[sv@.len() + j],
                forall|j: int|
                    0 <= j < sv_old.len() ==> (#[trigger] sv_old[j]).representative@.wf(),
            decreases old_sv@.len(),
        {
            let mut s = old_sv.remove(0);
            s.new_generation();
            sv.push(s);
        }
        proof {
            lemma_times_all_empty(sv@);
        }

        // place each genome with the closest representative
        let mut i: usize = 0;
        while i < pop_size
            invariant
                cfg.wf(),
                pop_size == cfg.population_size,
                old(self).wf(cfg),
                sv_old == old(self).species_vec@,
                ct0 == old(self).compatability_threshold,
                orgs0 == old(self).organisms@,
                self.organisms == old(self).organisms,
                self.fitness_arr == old(self).fitness_arr,
                self.to_mutate == old(self).to_mutate,
                self.champion == old(self).champion,
                self.max_fitness == old(self).max_fitness,
                self.generation == old(self).generation,
                self.gens_stagnated == old(self).gens_stagnated,
                self.compatability_threshold == old(self).compatability_threshold,
                self.organisms@.len() == pop_size,
                self.fitness_arr@.len() == pop_size,
                forall|k: int|
                    0 <= k < self.organisms@.len() ==> (#[trigger] self.organisms@[k])@.wf(),
                i <= pop_size,
                sv@.len() >= sv_old.len(),
                forall|j: int|
                    0 <= j < sv_old.len() ==> (#[trigger] sv@[j]).id == sv_old[j].id
                        && sv@[j].representative == sv_old[j].representative,
                forall|j: int|
                    sv_old.len() <= j < sv@.len() ==> species_founded(#[trigger] sv@[j], orgs0),
                forall|j: int|
                    0 <= j < sv@.len() ==> members_within(#[trigger] sv@[j], orgs0, ct0, cfg)
                        && members_nearest(sv@[j], orgs0, sv_old, cfg),
                forall|j: int|
                    0 <= j < sv@.len() ==> (#[trigger] sv@[j]).members_in(pop_size as int)
                        && sv@[j].representative@.wf() && sv@[j].members@.len() <= i,
                forall|id: usize| id < i ==> times_assigned(sv@, id) == 1,
                forall|id: usize| i <= id ==> times_assigned(sv@, id) == 0,
            decreases pop_size - i,
        {
            let mut best: usize = 0;
            let mut best_dist: u64 = u64::MAX;
            let mut found = false;
            let mut j: usize = 0;
            while j < sv.len()
                invariant
                    cfg.wf(),
                    i < self.organisms@.len(),
                    orgs0 == old(self).organisms@,
                    self.organisms == old(self).organisms,
                    forall|k: int|
                        0 <= k < self.organisms@.len() ==> (#[trigger] self.organisms@[k])@.wf(),
                    forall|k: int|
                        0 <= k < sv@.len() ==> (#[trigger] sv@[k]).representative@.wf(),
                    j <= sv@.len(),
                    found ==> best < sv@.len() && best_dist as int == clamp_u64(
                        spec_distance(orgs0[i as int]@, sv@[best as int].representative@, cfg),
                    ),
                    forall|jj: int|
                        0 <= jj < j ==> best_dist as int <= clamp_u64(
                            spec_distance(orgs0[i as int]@, (#[trigger] sv@[jj]).representative@, cfg),
                        ),
                decreases sv@.len() - j,
            {
                let d = distance(&self.organisms[i], sv[j].get_rep(), cfg);
                proof {
                    crate::distance::lemma_distance_nonneg(
                        orgs0[i as int]@,
                        sv@[j as int].representative@,
                        cfg,
                    );
                }
                if d < best_dist {
                    best_dist = d;
                    best = j;
                    found = true;
                }
                j += 1;
            }
            let fit = self.fitness_arr[i];
            if found && best_dist < self.compatability_threshold {
                let ghost sv_before = sv@;
                let mut s = sv.remove(best);
                let ghost pre_members = s.members@;
                s.insert(i, fit, cfg.dropoff_age);
                proof {
                    assert forall|id: usize|
                        #[trigger] id_count(s.members@, id) == id_count(pre_members, id) + if i
                            == id {
                            1int
                        } else {
                            0int
                        } by {
                        assert(s.members@.drop_last() =~= pre_members);
                    }
                }
                let ghost removed = sv@;
                sv.insert(best, s);
                proof {
                    lemma_times_remove(sv_before, best as int);
                    lemma_times_insert(removed, best as int, s);
                    assert forall|id: usize| id < i + 1 implies times_assigned(sv@, id) == 1 by {
                        lemma_id_count_nonneg(pre_members, id);
                    }
                    assert(sv@ =~= sv_before.update(best as int, s));
                    // the new member is within the threshold of, and nearest
                    // to, the representative it joined
                    assert(s.representative == sv_before[best as int].representative);
                    assert(s.members@.last().0 == i);
                    assert forall|j2: int|
                        0 <= j2 < sv@.len() implies members_within(
                        #[trigger] sv@[j2],
                        orgs0,
                        ct0,
                        cfg,
                    ) && members_nearest(sv@[j2], orgs0, sv_old, cfg) by {
                        if j2 == best as int {
                            assert forall|m: int|
                                0 <= m < s.members@.len() implies clamp_u64(
                                spec_distance(
                                    orgs0[(#[trigger] s.members@[m]).0 as int]@,
                                    s.representative@,
                                    cfg,
                                ),
                            ) < ct0 by {
                                if m < pre_members.len() {
                                    assert(s.members@[m] == pre_members[m]);
                                    assert(members_within(sv_before[best as int], orgs0, ct0, cfg));
                                } else {
                                    assert(s.members@[m].0 == i);
                                }
                            }
                            assert forall|m: int, r: int|
                                0 <= m < s.members@.len() && 0 <= r < sv_old.len() implies clamp_u64(
                                spec_distance(
                                    orgs0[(#[trigger] s.members@[m]).0 as int]@,
                                    s.representative@,
                                    cfg,
                                ),
                            ) <= clamp_u64(
                                spec_distance(
                                    orgs0[s.members@[m].0 as int]@,
                                    (#[trigger] sv_old[r]).representative@,
                                    cfg,
                                ),
                            ) by {
                                if m < pre_members.len() {
                                    assert(s.members@[m] == pre_members[m]);
                                    assert(members_nearest(
                                        sv_before[best as int],
                                        orgs0,
                                        sv_old,
                                        cfg,
                                    ));
                                } else {
                                    assert(s.members@[m].0 == i);
                                    assert(sv_before[r].representative
                                        == sv_old[r].representative);
                                    assert(best_dist as int <= clamp_u64(
                                        spec_distance(
                                            orgs0[i as int]@,
                                            sv_before[r].representative@,
                                            cfg,
                                        ),
                                    ));
                                }
                            }
                        } else {
                            assert(sv@[j2] == sv_before[j2]);
                        }
                    }
                    assert forall|j2: int|
                        sv_old.len() <= j2 < sv@.len() implies species_founded(
                        #[trigger] sv@[j2],
                        orgs0,
                    ) by {
                        if j2 == best as int {
                            assert(species_founded(sv_before[j2], orgs0));
                            let i0 = choose|i0: int|
                                0 <= i0 < orgs0.len() && sv_before[j2].representative@ == (
                                #[trigger] orgs0[i0])@ && id_count(
                                    sv_before[j2].members@,
                                    i0 as usize,
                                ) > 0;
                            assert(id_count(s.members@, i0 as usize) > 0) by {
                                lemma_id_count_nonneg(pre_members, i0 as usize);
                            }
                        } else {
                            assert(sv@[j2] == sv_before[j2]);
                        }
                    }
                }
            } else {
                let rep = self.organisms[i].clone();
                let mut s = Species::new(self.species_id_counter, rep);
                s.insert(i, fit, cfg.dropoff_age);
                if self.species_id_counter < u64::MAX {
                    self.species_id_counter = self.species_id_counter + 1;
                }
                let ghost sv_before = sv@;
                sv.push(s);
                proof {
                    lemma_times_push(sv_before, s);
                    assert forall|id: usize|
                        #[trigger] id_count(s.members@, id) == if i == id {
                            1int
                        } else {
                            0int
                        } by {
                        assert(s.members@.len() == 1);
                        assert(s.members@.last().0 == i);
                        assert(s.members@.drop_last() =~= Seq::<Member>::empty());
                        assert(id_count(Seq::<Member>::empty(), id) == 0);
                    }
                    // the founder is its own representative: distance zero
                    crate::distance::lemma_distance_self(orgs0[i as int]@, cfg);
                    assert(s.representative@ == orgs0[i as int]@);
                    assert(clamp_u64(spec_distance(orgs0[i as int]@, s.representative@, cfg))
                        == 0);
                    assert forall|j2: int|
                        0 <= j2 < sv@.len() implies members_within(
                        #[trigger] sv@[j2],
                        orgs0,
                        ct0,
                        cfg,
                    ) && members_nearest(sv@[j2], orgs0, sv_old, cfg) by {
                        if j2 == sv_before.len() {
                            assert(sv@[j2] == s);
                            assert forall|m: int, r: int|
                                0 <= m < s.members@.len() && 0 <= r < sv_old.len() implies clamp_u64(
                                spec_distance(
                                    orgs0[(#[trigger] s.members@[m]).0 as int]@,
                                    s.representative@,
                                    cfg,
                                ),
                            ) <= clamp_u64(
                                spec_distance(
                                    orgs0[s.members@[m].0 as int]@,
                                    (#[trigger] sv_old[r]).representative@,
                                    cfg,
                                ),
                            ) by {
                                assert(s.members@[m].0 == i);
                                crate::distance::lemma_distance_nonneg(
                                    orgs0[i as int]@,
                                    sv_old[r].representative@,
                                    cfg,
                                );
                            }
                            assert forall|m: int|
                                0 <= m < s.members@.len() implies clamp_u64(
                                spec_distance(
                                    orgs0[(#[trigger] s.members@[m]).0 as int]@,
                                    s.representative@,
                                    cfg,
                                ),
                            ) < ct0 by {
                                assert(s.members@[m].0 == i);
                                assert(ct0 >= cfg.compat_min >= 1);
                            }
                        } else {
                            assert(sv@[j2] == sv_before[j2]);
                        }
                    }
                    assert forall|j2: int|
                        sv_old.len() <= j2 < sv@.len() implies species_founded(
                        #[trigger] sv@[j2],
                        orgs0,
                    ) by {
                        if j2 == sv_before.len() {
                            assert(sv@[j2] == s);
                            assert(id_count(s.members@, i) > 0);
                        } else {
                            assert(sv@[j2] == sv_before[j2]);
                        }
                    }
                }
            }
            i += 1;
        }
        proof {
            assert forall|j: int| 0 <= j < sv@.len() implies species_provenance(
                #[trigger] sv@[j],
                sv_old,
                orgs0,
            ) by {
                if j < sv_old.len() {
                    assert(sv@[j].id == sv_old[j].id && sv@[j].representative
                        == sv_old[j].representative);
                } else {
                    assert(species_founded(sv@[j], orgs0));
                }
            }
        }

        // drop species that gathered no members
        let ghost assigned = sv@;
        let mut kept: Vec<Species> = Vec::new();
        while sv.len() > 0
            invariant
                pop_size == cfg.population_size,
                forall|id: usize|
                    #[trigger] times_assigned(kept@, id) + times_assigned(sv@, id)
                        == times_assigned(assigned, id),
                forall|j: int|
                    0 <= j < kept@.len() ==> (#[trigger] kept@[j]).members@.len() > 0
                        && kept@[j].members_in(pop_size as int) && kept@[j].representative@.wf()
                        && species_provenance(kept@[j], sv_old, orgs0) && members_within(
                        kept@[j],
                        orgs0,
                        ct0,
                        cfg,
                    ) && members_nearest(kept@[j], orgs0, sv_old, cfg),
                forall|j: int|
                    0 <= j < sv@.len() ==> (#[trigger] sv@[j]).members_in(pop_size as int)
                        && sv@[j].representative@.wf() && species_provenance(
                        sv@[j],
                        sv_old,
                        orgs0,
                    ) && members_within(sv@[j], orgs0, ct0, cfg) && members_nearest(
                        sv@[j],
                        orgs0,
                        sv_old,
                        cfg,
                    ),
            decreases sv@.len(),
        {
            let ghost svp = sv@;
            let ghost keptp = kept@;
            let s = sv.remove(0);
            proof {
                lemma_times_remove(svp, 0);
            }
            if s.is_extinct() {
            } else {
                proof {
                    lemma_times_push(keptp, s);
                }
                kept.push(s);
            }
        }

        // adjusted fitnesses, fitness order, and the population average
        let ghost kept_all = kept@;
        let mut final_sv: Vec<Species> = Vec::new();
        let mut total_adj: u128 = 0;
        while kept.len() > 0
            invariant
                pop_size == cfg.population_size,
                forall|id: usize|
                    #[trigger] times_assigned(final_sv@, id) + times_assigned(kept@, id)
                        == times_assigned(kept_all, id),
                forall|j: int|
                    0 <= j < final_sv@.len() ==> (#[trigger] final_sv@[j]).members@.len() > 0
                        && final_sv@[j].members_in(pop_size as int)
                        && final_sv@[j].representative@.wf() && sorted_by_fitness_desc(
                        final_sv@[j].members@,
                    ) && species_provenance(final_sv@[j], sv_old, orgs0) && members_within(
                        final_sv@[j],
                        orgs0,
                        ct0,
                        cfg,
                    ) && members_nearest(final_sv@[j], orgs0, sv_old, cfg),
                forall|j: int|
                    0 <= j < kept@.len() ==> (#[trigger] kept@[j]).members@.len() > 0
                        && kept@[j].members_in(pop_size as int) && kept@[j].representative@.wf()
                        && species_provenance(kept@[j], sv_old, orgs0) && members_within(
                        kept@[j],
                        orgs0,
                        ct0,
                        cfg,
                    ) && members_nearest(kept@[j], orgs0, sv_old, cfg),
            decreases kept@.len(),
        {
            let ghost keptp = kept@;
            let ghost fsp = final_sv@;
            let mut s = kept.remove(0);
            proof {
                lemma_times_remove(keptp, 0);
            }
            let ghost pre_calc = s.members@;
            let ghost pre_species = s;
            let sum = s.calc_adj_fitnesses();
            let ghost pre_sort = s.members@;
            let ghost mid_species = s;
            s.sort_by_fitness();
            total_adj = if total_adj <= u128::MAX - sum {
                total_adj + sum
            } else {
                u128::MAX
            };
            proof {
                lemma_times_push(fsp, s);
                // member indices, and with them the membership facts, survive
                // the adjustment and the sort
                assert forall|t: int|
                    0 <= t < s.members@.len() implies (#[trigger] s.members@[t]).0 < pop_size
                        && clamp_u64(
                        spec_distance(orgs0[s.members@[t].0 as int]@, s.representative@, cfg),
                    ) < ct0 by {
                    assert(contains_member(pre_sort, s.members@[t]));
                    let u = choose|u: int| 0 <= u < pre_sort.len() && pre_sort[u] == s.members@[t];
                    assert(pre_sort[u].0 == pre_calc[u].0);
                    assert(members_within(keptp[0], orgs0, ct0, cfg));
                }
                assert(s.members_in(pop_size as int));
                assert(members_within(s, orgs0, ct0, cfg));
                assert forall|t: int, r: int|
                    0 <= t < s.members@.len() && 0 <= r < sv_old.len() implies clamp_u64(
                    spec_distance(orgs0[(#[trigger] s.members@[t]).0 as int]@, s.representative@, cfg),
                ) <= clamp_u64(
                    spec_distance(
                        orgs0[s.members@[t].0 as int]@,
                        (#[trigger] sv_old[r]).representative@,
                        cfg,
                    ),
                ) by {
                    assert(contains_member(pre_sort, s.members@[t]));
                    let u = choose|u: int| 0 <= u < pre_sort.len() && pre_sort[u] == s.members@[t];
                    assert(pre_sort[u].0 == pre_calc[u].0);
                    assert(members_nearest(keptp[0], orgs0, sv_old, cfg));
                }
                assert(members_nearest(s, orgs0, sv_old, cfg));
                assert(species_provenance(s, sv_old, orgs0)) by {
                    assert(species_provenance(keptp[0], sv_old, orgs0));
                    if exists|i0: int|
                        0 <= i0 < orgs0.len() && keptp[0].representative@ == (
                        #[trigger] orgs0[i0])@ && id_count(keptp[0].members@, i0 as usize) > 0 {
                        let i0 = choose|i0: int|
                            0 <= i0 < orgs0.len() && keptp[0].representative@ == (
                            #[trigger] orgs0[i0])@ && id_count(keptp[0].members@, i0 as usize) > 0;
                        assert(id_count(pre_sort, i0 as usize) == id_count(
                            pre_calc,
                            i0 as usize,
                        ));
                        assert(id_count(s.members@, i0 as usize) > 0);
                    }
                }
            }
            final_sv.push(s);
        }
        self.species_vec = final_sv;

        // population-average adjusted fitness
        let avg = total_adj / (pop_size as u128);
        self.pop_avg_adj_fit = if avg > u64::MAX as u128 {
            u64::MAX
        } else {
            avg as u64
        };

        // self-tune the compatibility threshold toward the target count
        let count = self.species_vec.len();
        if count > cfg.target_species {
            if self.compatability_threshold <= u64::MAX - cfg.compat_modifier {
                self.compatability_threshold = self.compatability_threshold + cfg.compat_modifier;
            }
        } else if count < cfg.target_species {
            if self.compatability_threshold >= cfg.compat_modifier && self.compatability_threshold
                - cfg.compat_modifier >= cfg.compat_min {
                self.compatability_threshold = self.compatability_threshold - cfg.compat_modifier;
            } else {
                self.compatability_threshold = cfg.compat_min;
            }
        }
    }

    /// The offspring quota a species receives this generation: its share of
    /// the population in proportion of adjusted fitness (zero while the
    /// population average is zero).
    pub open spec fn spec_quota(s: Species, pop_avg: u64) -> int {
        if pop_avg > 0 && s.members@.len() > 0 {
            crate::species::spec_allowed_offspring(
                s.total_adj_fitness as int,
                s.members@.len() as int,
                pop_avg as int,
            )
        } else {
            0
        }
    }

    /// The population slot where species `j`'s offspring block begins: the
    /// quotas of the species before it, capped at the population size.
    pub open spec fn block_start(sv: Seq<Species>, j: int, pop_avg: u64, cap: int) -> int
        decreases j,
    {
        if j <= 0 {
            0
        } else {
            let prev = Self::block_start(sv, j - 1, pop_avg, cap) + Self::spec_quota(
                sv[j - 1],
                pop_avg,
            );
            if prev > cap {
                cap
            } else {
                prev
            }
        }
    }

    /// What one offspring slot holds: within the first `elitism` slots of a
    /// species' block, an unmutated copy of that species' top member, marked
    /// exempt from mutation; in the rest of the block, a crossover child of
    /// two members of that same species, the fitter-parent flag taken from
    /// their raw fitness comparison, marked for mutation.
    pub open spec fn slot_ok(
        sv: Seq<Species>,
        orgs: Seq<Genome>,
        fitness: Seq<u64>,
        elitism: int,
        pop_avg: u64,
        cap: int,
        new_orgs: Seq<Genome>,
        flags: Seq<bool>,
        j: int,
        k: int,
    ) -> bool {
        if k - Self::block_start(sv, j, pop_avg, cap) < elitism {
            &&& new_orgs[k]@ == orgs[sv[j].members@[0].0 as int]@
            &&& flags[k] == false
        } else {
            &&& flags[k] == true
            &&& exists|a: int, b: int|
                #![trigger sv[j].members@[a], sv[j].members@[b]]
                0 <= a < sv[j].members@.len() && 0 <= b < sv[j].members@.len()
                    && crossover_shape(
                    new_orgs[k]@,
                    orgs[sv[j].members@[a].0 as int]@,
                    orgs[sv[j].members@[b].0 as int]@,
                    fitness[sv[j].members@[a].0 as int] > fitness[sv[j].members@[b].0 as int],
                )
        }
    }

    /// Slots from `total` up to `n` hold copies of the champion, marked for
    /// mutation.
    pub open spec fn champion_pads(
        new_orgs: Seq<Genome>,
        flags: Seq<bool>,
        champ: Option<Genome>,
        total: int,
        n: int,
    ) -> bool {
        forall|k: int|
            total <= k < n ==> (#[trigger] new_orgs[k])@ == champ->0@ && flags[k] == true
                && champ is Some
    }

    /// The offspring layout holds for every block slot below `n`.
    pub open spec fn slots_ok_upto(
        sv: Seq<Species>,
        orgs: Seq<Genome>,
        fitness: Seq<u64>,
        elitism: int,
        pop_avg: u64,
        cap: int,
        new_orgs: Seq<Genome>,
        flags: Seq<bool>,
        n: int,
    ) -> bool {
        forall|j: int, k: int|
            #![trigger Self::slot_ok(sv, orgs, fitness, elitism, pop_avg, cap, new_orgs, flags, j, k)]
            0 <= j < sv.len() && 0 <= k && Self::block_start(sv, j, pop_avg, cap) <= k
                < Self::block_start(sv, j + 1, pop_avg, cap) && k < n ==> Self::slot_ok(
                sv,
                orgs,
                fitness,
                elitism,
                pop_avg,
                cap,
                new_orgs,
                flags,
                j,
                k,
            )
    }

    /// Builds the next generation entirely anew: per species (in proportion
    /// to its adjusted fitness) the top member survives as an unmutated
    /// elite and the rest come from crossover of two fitness-proportionately
    /// drawn parents; the shortfall that rounding leaves is padded with
    /// copies of the champion (which must exist by then). The population
    /// size stays constant, and every gene of the new generation comes from
    /// this generation's organisms or the champion.
    #[verifier::rlimit(100)]
    pub fn reproduce(&mut self, cfg: &Config) -> (r: Result<(), NeatError>)
        requires
            cfg.wf(),
            old(self).wf(cfg),
            forall|j: int|
                0 <= j < old(self).species_vec@.len() ==> (#[trigger] old(self).species_vec@[j]).members@.len() > 0,
        ensures
            r is Err ==> *final(self) == *old(self) && old(self).champion is None,
            r is Ok ==> final(self).wf(cfg),
            r is Ok ==> final(self).champion == old(self).champion,
            r is Ok ==> final(self).species_vec == old(self).species_vec,
            r is Ok ==> final(self).fitness_arr == old(self).fitness_arr,
            r is Ok ==> final(self).max_fitness == old(self).max_fitness,
            r is Ok ==> final(self).compatability_threshold == old(self).compatability_threshold,
            r is Ok ==> final(self).organisms@.len() == cfg.population_size && final(self).to_mutate@.len() == cfg.population_size,
            r is Ok ==> final(self).generation == if old(self).generation < u64::MAX {
                old(self).generation + 1
            } else {
                old(self).generation as int
            },
            // per species, the first slots of its block are unmutated elite
            // copies of its top member and the rest are crossover children of
            // two of its members, flagged for mutation
            r is Ok ==> Population::slots_ok_upto(
                old(self).species_vec@,
                old(self).organisms@,
                old(self).fitness_arr@,
                cfg.elitism as int,
                old(self).pop_avg_adj_fit,
                cfg.population_size as int,
                final(self).organisms@,
                final(self).to_mutate@,
                cfg.population_size as int,
            ),
            // the shortfall that rounding leaves is padded with copies of the
            // champion, flagged for mutation
            r is Ok ==> Population::champion_pads(
                final(self).organisms@,
                final(self).to_mutate@,
                old(self).champion,
                Population::block_start(
                    old(self).species_vec@,
                    old(self).species_vec@.len() as int,
                    old(self).pop_avg_adj_fit,
                    cfg.population_size as int,
                ),
                cfg.population_size as int,
            ),
            r is Ok ==> forall|oi: int|
                0 <= oi < final(self).organisms@.len() ==> genome_from_pop(
                    (#[trigger] final(self).organisms@[oi])@,
                    old(self).organisms@,
                    old(self).champion,
                ),
    {
        let pop_size = cfg.population_size;
        let ghost sv = old(self).species_vec@;
        let ghost pa = old(self).pop_avg_adj_fit;
        let ghost cap = pop_size as int;
        let ghost el = cfg.elitism as int;
        let ghost orgs0 = old(self).organisms@;
        let ghost fit0 = old(self).fitness_arr@;
        proof {
            lemma_quotas_nonneg(sv, pa);
        }
        let mut new_pop: Vec<Genome> = Vec::new();
        let mut flags: Vec<bool> = Vec::new();
        let scount = self.species_vec.len();
        let mut si: usize = 0;
        while si < scount && new_pop.len() < pop_size
            invariant
                cfg.wf(),
                old(self).wf(cfg),
                *self == *old(self),
                pop_size == cfg.population_size,
                sv == old(self).species_vec@,
                pa == old(self).pop_avg_adj_fit,
                cap == pop_size as int,
                el == cfg.elitism as int,
                orgs0 == old(self).organisms@,
                fit0 == old(self).fitness_arr@,
                quotas_nonneg(sv, pa),
                scount == self.species_vec@.len(),
                si <= scount,
                forall|j: int|
                    0 <= j < self.species_vec@.len() ==> (#[trigger] self.species_vec@[j]).members@.len() > 0,
                new_pop@.len() <= pop_size,
                flags@.len() == new_pop@.len(),
                new_pop@.len() as int == Population::block_start(sv, si as int, pa, cap),
                Population::slots_ok_upto(
                    sv,
                    orgs0,
                    fit0,
                    el,
                    pa,
                    cap,
                    new_pop@,
                    flags@,
                    new_pop@.len() as int,
                ),
                forall|oi: int|
                    0 <= oi < new_pop@.len() ==> (#[trigger] new_pop@[oi])@.wf()
                        && new_pop@[oi]@.closed() && new_pop@[oi]@.bounded(),
                forall|oi: int|
                    0 <= oi < new_pop@.len() ==> genome_from_pop(
                        (#[trigger] new_pop@[oi])@,
                        old(self).organisms@,
                        old(self).champion,
                    ),
            decreases scount - si,
        {
            let allowed: usize = if self.pop_avg_adj_fit > 0 {
                self.species_vec[si].allowed_offspring(self.pop_avg_adj_fit)
            } else {
                0
            };
            proof {
                assert(allowed as int == Population::spec_quota(sv[si as int], pa));
            }
            let mut k: usize = 0;
            while k < allowed && new_pop.len() < pop_size
                invariant
                    cfg.wf(),
                    old(self).wf(cfg),
                    *self == *old(self),
                    pop_size == cfg.population_size,
                    sv == old(self).species_vec@,
                    pa == old(self).pop_avg_adj_fit,
                    cap == pop_size as int,
                    el == cfg.elitism as int,
                    orgs0 == old(self).organisms@,
                    fit0 == old(self).fitness_arr@,
                    quotas_nonneg(sv, pa),
                    si < self.species_vec@.len(),
                    forall|j: int|
                        0 <= j < self.species_vec@.len() ==> (#[trigger] self.species_vec@[j]).members@.len() > 0,
                    allowed as int == Population::spec_quota(sv[si as int], pa),
                    k <= allowed,
                    new_pop@.len() <= pop_size,
                    flags@.len() == new_pop@.len(),
                    new_pop@.len() as int == Population::block_start(sv, si as int, pa, cap) + k,
                    Population::slots_ok_upto(
                        sv,
                        orgs0,
                        fit0,
                        el,
                        pa,
                        cap,
                        new_pop@,
                        flags@,
                        new_pop@.len() as int,
                    ),
                    forall|oi: int|
                        0 <= oi < new_pop@.len() ==> (#[trigger] new_pop@[oi])@.wf()
                            && new_pop@[oi]@.closed() && new_pop@[oi]@.bounded(),
                    forall|oi: int|
                        0 <= oi < new_pop@.len() ==> genome_from_pop(
                            (#[trigger] new_pop@[oi])@,
                            old(self).organisms@,
                            old(self).champion,
                        ),
                decreases allowed - k,
            {
                let ghost kslot = new_pop@.len() as int;
                proof {
                    // the slot being filled lies inside this species' block
                    assert(kslot < Population::block_start(sv, si + 1, pa, cap));
                }
                let ghost base_orgs = new_pop@;
                let ghost base_flags = flags@;
                if k < cfg.elitism {
                    let idx = self.species_vec[si].get_first();
                    proof {
                        assert(self.species_vec@[si as int].members_in(pop_size as int));
                        assert(self.species_vec@[si as int].members@[0].0 < pop_size);
                    }
                    let g = self.organisms[idx].clone();
                    proof {
                        lemma_clone_from_pop(g@, self.organisms@, self.champion, idx as int);
                    }
                    new_pop.push(g);
                    flags.push(false);
                    proof {
                        lemma_slots_extend(
                            sv,
                            orgs0,
                            fit0,
                            el,
                            pa,
                            cap,
                            base_orgs,
                            base_flags,
                            g,
                            false,
                            kslot,
                        );
                        assert(Population::slot_ok(
                            sv,
                            orgs0,
                            fit0,
                            el,
                            pa,
                            cap,
                            new_pop@,
                            flags@,
                            si as int,
                            kslot,
                        )) by {
                            assert(new_pop@[kslot] == g);
                            assert(flags@[kslot] == false);
                        }
                        lemma_slots_join(sv, orgs0, fit0, el, pa, cap, new_pop@, flags@, si as int, kslot);
                    }
                } else {
                    let p1 = self.species_vec[si].get_fit_member_id();
                    let p2 = self.species_vec[si].get_fit_member_id();
                    let ghost w1 = choose|w: int|
                        0 <= w < self.species_vec@[si as int].members@.len() && p1 == (
                        #[trigger] self.species_vec@[si as int].members@[w]).0;
                    let ghost w2 = choose|w: int|
                        0 <= w < self.species_vec@[si as int].members@.len() && p2 == (
                        #[trigger] self.species_vec@[si as int].members@[w]).0;
                    proof {
                        assert(self.species_vec@[si as int].members_in(pop_size as int));
                        assert(self.species_vec@[si as int].members@[w1].0 < pop_size);
                        assert(self.species_vec@[si as int].members@[w2].0 < pop_size);
                    }
                    let p1_fitter = self.fitness_arr[p1] > self.fitness_arr[p2];
                    let child = crossover(&self.organisms[p1], &self.organisms[p2], p1_fitter);
                    proof {
                        assert(marker_consistent(
                            self.organisms@[p1 as int]@.conns,
                            self.organisms@[p2 as int]@.conns,
                        ));
                        assert(child@.closed());
                        assert(child@.bounded());
                        assert(genome_from_pop(child@, self.organisms@, self.champion)) by {
                            assert forall|gi: int|
                                0 <= gi < child@.conns.len() implies gene_in_pop(
                                self.organisms@,
                                self.champion,
                                #[trigger] child@.conns[gi],
                            ) by {
                                if contains_gene(
                                    self.organisms@[p1 as int]@.conns,
                                    child@.conns[gi],
                                ) {
                                    assert(gene_in_pop(
                                        self.organisms@,
                                        self.champion,
                                        child@.conns[gi],
                                    ));
                                } else {
                                    assert(contains_gene(
                                        self.organisms@[p2 as int]@.conns,
                                        child@.conns[gi],
                                    ));
                                }
                            }
                        }
                    }
                    new_pop.push(child);
                    flags.push(true);
                    proof {
                        lemma_slots_extend(
                            sv,
                            orgs0,
                            fit0,
                            el,
                            pa,
                            cap,
                            base_orgs,
                            base_flags,
                            child,
                            true,
                            kslot,
                        );
                        assert(Population::slot_ok(
                            sv,
                            orgs0,
                            fit0,
                            el,
                            pa,
                            cap,
                            new_pop@,
                            flags@,
                            si as int,
                            kslot,
                        )) by {
                            assert(new_pop@[kslot] == child);
                            assert(flags@[kslot] == true);
                            assert(sv[si as int].members@[w1].0 == p1);
                            assert(sv[si as int].members@[w2].0 == p2);
                            assert(crossover_shape(
                                child@,
                                orgs0[sv[si as int].members@[w1].0 as int]@,
                                orgs0[sv[si as int].members@[w2].0 as int]@,
                                fit0[sv[si as int].members@[w1].0 as int] > fit0[sv[si as int].members@[w2].0 as int],
                            ));
                        }
                        lemma_slots_join(sv, orgs0, fit0, el, pa, cap, new_pop@, flags@, si as int, kslot);
                    }
                }
                k += 1;
            }
            proof {
                // the block either ran its quota out or hit the cap; either
                // way the next block starts where this vector ends
                assert(new_pop@.len() as int == Population::block_start(sv, si + 1, pa, cap));
            }
            si += 1;
        }
        proof {
            lemma_block_monotone(sv, pa, cap, si as int, sv.len() as int);
            lemma_block_nonneg(sv, pa, cap, sv.len() as int);
            assert(new_pop@.len() as int >= Population::block_start(sv, sv.len() as int, pa, cap));
        }
        if new_pop.len() < pop_size && self.champion.is_none() {
            return Err(NeatError::MissingChampion);
        }
        let ghost total = Population::block_start(sv, sv.len() as int, pa, cap);
        while new_pop.len() < pop_size
            invariant
                cfg.wf(),
                old(self).wf(cfg),
                *self == *old(self),
                pop_size == cfg.population_size,
                sv == old(self).species_vec@,
                pa == old(self).pop_avg_adj_fit,
                cap == pop_size as int,
                el == cfg.elitism as int,
                orgs0 == old(self).organisms@,
                fit0 == old(self).fitness_arr@,
                quotas_nonneg(sv, pa),
                total == Population::block_start(sv, sv.len() as int, pa, cap),
                new_pop@.len() < pop_size ==> self.champion is Some,
                new_pop@.len() <= pop_size,
                new_pop@.len() >= total,
                flags@.len() == new_pop@.len(),
                Population::slots_ok_upto(
                    sv,
                    orgs0,
                    fit0,
                    el,
                    pa,
                    cap,
                    new_pop@,
                    flags@,
                    new_pop@.len() as int,
                ),
                Population::champion_pads(
                    new_pop@,
                    flags@,
                    old(self).champion,
                    total,
                    new_pop@.len() as int,
                ),
                forall|oi: int|
                    0 <= oi < new_pop@.len() ==> (#[trigger] new_pop@[oi])@.wf()
                        && new_pop@[oi]@.closed() && new_pop@[oi]@.bounded(),
                forall|oi: int|
                    0 <= oi < new_pop@.len() ==> genome_from_pop(
                        (#[trigger] new_pop@[oi])@,
                        old(self).organisms@,
                        old(self).champion,
                    ),
            decreases pop_size - new_pop@.len(),
        {
            match &self.champion {
                Some(g) => {
                    let c = g.clone();
                    proof {
                        assert(genome_from_pop(c@, self.organisms@, self.champion)) by {
                            assert forall|gi: int|
                                0 <= gi < c@.conns.len() implies gene_in_pop(
                                self.organisms@,
                                self.champion,
                                #[trigger] c@.conns[gi],
                            ) by {
                                assert(contains_gene(
                                    self.champion->0@.conns,
                                    c@.conns[gi],
                                ));
                            }
                        }
                    }
                    let ghost base_orgs = new_pop@;
                    let ghost base_flags = flags@;
                    new_pop.push(c);
                    flags.push(true);
                    proof {
                        lemma_slots_extend(
                            sv,
                            orgs0,
                            fit0,
                            el,
                            pa,
                            cap,
                            base_orgs,
                            base_flags,
                            c,
                            true,
                            base_orgs.len() as int,
                        );
                        lemma_slots_vacuous_past_total(
                            sv,
                            orgs0,
                            fit0,
                            el,
                            pa,
                            cap,
                            new_pop@,
                            flags@,
                            base_orgs.len() as int,
                        );
                        lemma_block_nonneg(sv, pa, cap, sv.len() as int);
                        assert(Population::champion_pads(
                            new_pop@,
                            flags@,
                            old(self).champion,
                            total,
                            new_pop@.len() as int,
                        )) by {
                            assert forall|k2: int|
                                total <= k2 < new_pop@.len() implies (#[trigger] new_pop@[k2])@
                                == old(self).champion->0@ && flags@[k2] == true && old(self).champion is Some by {
                                if k2 < base_orgs.len() {
                                    assert(new_pop@[k2] == base_orgs[k2]);
                                    assert(flags@[k2] == base_flags[k2]);
                                } else {
                                    assert(new_pop@[k2] == c);
                                    assert(flags@[k2] == true);
                                }
                            }
                        }
                    }
                },
                None => {
                    return Err(NeatError::MissingChampion);
                },
            }
        }
        let ghost padded = new_pop@;
        let ghost padded_flags = flags@;
        self.organisms = new_pop;
        self.to_mutate = flags;
        if self.generation < u64::MAX {
            self.generation = self.generation + 1;
        }
        proof {
            lemma_derived_consistent(
                self.organisms@,
                old(self).organisms@,
                old(self).champion,
            );
            lemma_slots_vacuous_past_total(
                sv,
                orgs0,
                fit0,
                el,
                pa,
                cap,
                self.organisms@,
                self.to_mutate@,
                self.organisms@.len() as int,
            );
            assert(self.organisms@ == padded);
            assert(self.to_mutate@ == padded_flags);
            assert(Population::champion_pads(padded, padded_flags, old(self).champion, total, cap));
            assert(Population::champion_pads(
                self.organisms@,
                self.to_mutate@,
                old(self).champion,
                total,
                cap,
            ));
        }
        Ok(())
    }

    pub fn get_champion(&self) -> (r: Option<Genome>)
        ensures
            r is Some <==> self.champion is Some,
            r is Some ==> r->0@ == self.champion->0@,
    {
        match &self.champion {
            Some(g) => Some(g.clone()),
            None => None,
        }
    }

    /// The mean of the current fitness buffer.
    pub fn get_mean_fitness(&self) -> (r: u64)
        requires
            self.fitness_arr@.len() > 0,
        ensures
            r as int == sum_fitness(self.fitness_arr@) / self.fitness_arr@.len() as int || (r
                == u64::MAX && sum_fitness(self.fitness_arr@) / self.fitness_arr@.len() as int
                > u64::MAX),
    {
        let n = self.fitness_arr.len();
        let mut sum: u128 = 0;
        let mut i: usize = 0;
        while i < n
            invariant
                n == self.fitness_arr@.len(),
                i <= n,
                sum == sum_fitness(self.fitness_arr@.take(i as int)),
                sum <= i * 0x1_0000_0000_0000_0000,
            decreases n - i,
        {
            proof {
                assert(self.fitness_arr@.take(i + 1).drop_last() =~= self.fitness_arr@.take(
                    i as int,
                ));
                assert(self.fitness_arr@.take(i + 1).last() == self.fitness_arr@[i as int]);
                assert((i + 1) * 0x1_0000_0000_0000_0000 == i * 0x1_0000_0000_0000_0000
                    + 0x1_0000_0000_0000_0000) by (nonlinear_arith);
                assert(i * 0x1_0000_0000_0000_0000 <= 0x1_0000_0000_0000_0000
                    * 0x1_0000_0000_0000_0000) by (nonlinear_arith)
                    requires
                        0 <= i <= 0x1_0000_0000_0000_0000,
                {
                }
            }
            sum = sum + self.fitness_arr[i] as u128;
            i += 1;
        }
        proof {
            assert(self.fitness_arr@.take(n as int) =~= self.fitness_arr@);
        }
        let mean = sum / (n as u128);
        if mean > u64::MAX as u128 {
            u64::MAX
        } else {
            mean as u64
        }
    }

    pub fn get_species_vec(&self) -> (r: &Vec<Species>)
        ensures
            r == &self.species_vec,
    {
        &self.species_vec
    }

    /// A copy of the fitness buffer.
    pub fn get_fitness_vec(&self) -> (r: Vec<u64>)
        ensures
            r@ == self.fitness_arr@,
    {
        let n = self.fitness_arr.len();
        let mut buf: Vec<u64> = Vec::new();
        let mut i: usize = 0;
        while i < n
            invariant
                n == self.fitness_arr@.len(),
                i <= n,
                buf@.len() == i,
                forall|j: int| 0 <= j < i ==> buf@[j] == self.fitness_arr@[j],
            decreases n - i,
        {
            buf.push(self.fitness_arr[i]);
            i += 1;
        }
        proof {
            assert(buf@ =~= self.fitness_arr@);
        }
        buf
    }

    pub fn get_max_fitness(&self) -> (r: u64)
        ensures
            r == self.max_fitness,
    {
        self.max_fitness
    }

    pub fn species_len(&self) -> (r: usize)
        ensures
            r == self.species_vec@.len(),
    {
        self.species_vec.len()
    }

    pub fn should_mutate(&self, g_id: usize) -> (r: bool)
        requires
            g_id < self.to_mutate@.len(),
        ensures
            r == self.to_mutate@[g_id as int],
    {
        self.to_mutate[g_id]
    }
}


/// Every connection of the genome comes from the population's organisms or
/// its champion.
pub open spec fn genome_from_pop(g: GenomeView, orgs: Seq<Genome>, champ: Option<Genome>) -> bool {
    forall|gi: int|
        0 <= gi < g.conns.len() ==> gene_in_pop(orgs, champ, #[trigger] g.conns[gi])
}

/// A copy of an organism only holds genes of the population.
proof fn lemma_clone_from_pop(g: GenomeView, orgs: Seq<Genome>, champ: Option<Genome>, k: int)
    requires
        0 <= k < orgs.len(),
        g == orgs[k]@,
    ensures
        genome_from_pop(g, orgs, champ),
{
    assert forall|gi: int|
        0 <= gi < g.conns.len() implies gene_in_pop(orgs, champ, #[trigger] g.conns[gi]) by {
        assert(contains_gene(orgs[k]@.conns, g.conns[gi]));
    }
}

/// Two genes drawn from a mutually consistent population agree on the
/// endpoints their shared marker names.
proof fn lemma_gene_pair_consistent(
    orgs: Seq<Genome>,
    champ: Option<Genome>,
    gx: ConnectionGene,
    gy: ConnectionGene,
)
    requires
        pop_consistent(orgs, champ),
        gene_in_pop(orgs, champ, gx),
        gene_in_pop(orgs, champ, gy),
        gx.marker() == gy.marker(),
    ensures
        gx.from() == gy.from(),
        gx.to() == gy.to(),
{
    if exists|k: int| 0 <= k < orgs.len() && contains_gene((#[trigger] orgs[k])@.conns, gx) {
        let kx = choose|k: int| 0 <= k < orgs.len() && contains_gene((#[trigger] orgs[k])@.conns, gx);
        let ix = choose|i: int| 0 <= i < orgs[kx]@.conns.len() && orgs[kx]@.conns[i] == gx;
        if exists|k: int| 0 <= k < orgs.len() && contains_gene((#[trigger] orgs[k])@.conns, gy) {
            let ky = choose|k: int|
                0 <= k < orgs.len() && contains_gene((#[trigger] orgs[k])@.conns, gy);
            let iy = choose|i: int| 0 <= i < orgs[ky]@.conns.len() && orgs[ky]@.conns[i] == gy;
            assert(marker_consistent(orgs[kx]@.conns, orgs[ky]@.conns));
            assert(orgs[kx]@.conns[ix].marker() == orgs[ky]@.conns[iy].marker());
        } else {
            let iy = choose|i: int|
                0 <= i < champ->0@.conns.len() && champ->0@.conns[i] == gy;
            assert(marker_consistent(orgs[kx]@.conns, champ->0@.conns));
            assert(orgs[kx]@.conns[ix].marker() == champ->0@.conns[iy].marker());
        }
    } else {
        let ix = choose|i: int| 0 <= i < champ->0@.conns.len() && champ->0@.conns[i] == gx;
        if exists|k: int| 0 <= k < orgs.len() && contains_gene((#[trigger] orgs[k])@.conns, gy) {
            let ky = choose|k: int|
                0 <= k < orgs.len() && contains_gene((#[trigger] orgs[k])@.conns, gy);
            let iy = choose|i: int| 0 <= i < orgs[ky]@.conns.len() && orgs[ky]@.conns[i] == gy;
            assert(marker_consistent(champ->0@.conns, orgs[ky]@.conns));
            assert(champ->0@.conns[ix].marker() == orgs[ky]@.conns[iy].marker());
        } else {
            let iy = choose|i: int|
                0 <= i < champ->0@.conns.len() && champ->0@.conns[i] == gy;
            assert(marker_consistent(champ->0@.conns, champ->0@.conns));
            assert(champ->0@.conns[ix].marker() == champ->0@.conns[iy].marker());
        }
    }
}

/// A population whose genes are all drawn from a mutually consistent
/// population is itself mutually consistent (with the same champion).
proof fn lemma_derived_consistent(
    new_orgs: Seq<Genome>,
    orgs: Seq<Genome>,
    champ: Option<Genome>,
)
    requires
        pop_consistent(orgs, champ),
        forall|oi: int|
            0 <= oi < new_orgs.len() ==> genome_from_pop(
                (#[trigger] new_orgs[oi])@,
                orgs,
                champ,
            ),
    ensures
        pop_consistent(new_orgs, champ),
{
    assert forall|a: int, b: int|
        0 <= a < new_orgs.len() && 0 <= b < new_orgs.len() implies marker_consistent(
        (#[trigger] new_orgs[a])@.conns,
        (#[trigger] new_orgs[b])@.conns,
    ) by {
        let ca = new_orgs[a]@.conns;
        let cb = new_orgs[b]@.conns;
        assert forall|i: int, j: int|
            0 <= i < ca.len() && 0 <= j < cb.len() && (#[trigger] ca[i]).marker() == (
            #[trigger] cb[j]).marker() implies ca[i].from() == cb[j].from() && ca[i].to()
            == cb[j].to() by {
            lemma_gene_pair_consistent(orgs, champ, ca[i], cb[j]);
        }
    }
    if champ is Some {
        assert forall|a: int|
            0 <= a < new_orgs.len() implies marker_consistent(
            champ->0@.conns,
            (#[trigger] new_orgs[a])@.conns,
        ) && marker_consistent((new_orgs[a])@.conns, champ->0@.conns) by {
            let ca = champ->0@.conns;
            let cb = new_orgs[a]@.conns;
            assert forall|i: int, j: int|
                0 <= i < ca.len() && 0 <= j < cb.len() && (#[trigger] ca[i]).marker() == (
                #[trigger] cb[j]).marker() implies ca[i].from() == cb[j].from() && ca[i].to()
                == cb[j].to() by {
                assert(gene_in_pop(orgs, champ, ca[i])) by {
                    assert(contains_gene(champ->0@.conns, ca[i]));
                }
                lemma_gene_pair_consistent(orgs, champ, ca[i], cb[j]);
            }
            assert forall|i: int, j: int|
                0 <= i < cb.len() && 0 <= j < ca.len() && (#[trigger] cb[i]).marker() == (
                #[trigger] ca[j]).marker() implies cb[i].from() == ca[j].from() && cb[i].to()
                == ca[j].to() by {
                assert(gene_in_pop(orgs, champ, ca[j])) by {
                    assert(contains_gene(champ->0@.conns, ca[j]));
                }
                lemma_gene_pair_consistent(orgs, champ, cb[i], ca[j]);
            }
        }
    }
}


/// Every species' quota is non-negative.
pub open spec fn quotas_nonneg(sv: Seq<Species>, pop_avg: u64) -> bool {
    forall|j: int| 0 <= j < sv.len() ==> #[trigger] Population::spec_quota(sv[j], pop_avg) >= 0
}

proof fn lemma_quotas_nonneg(sv: Seq<Species>, pop_avg: u64)
    ensures
        quotas_nonneg(sv, pop_avg),
{
    assert forall|j: int|
        0 <= j < sv.len() implies #[trigger] Population::spec_quota(sv[j], pop_avg) >= 0 by {
        if pop_avg > 0 && sv[j].members@.len() > 0 {
            let a = sv[j].total_adj_fitness as int;
            let l = sv[j].members@.len() as int;
            let p = pop_avg as int;
            assert(a / l >= 0) by (nonlinear_arith)
                requires
                    a >= 0,
                    l >= 1,
            {
            }
            assert((a / l) * l >= 0) by (nonlinear_arith)
                requires
                    a / l >= 0,
                    l >= 1,
            {
            }
            assert((a / l) * l / p >= 0) by (nonlinear_arith)
                requires
                    (a / l) * l >= 0,
                    p >= 1,
            {
            }
        }
    }
}

/// Block starts are non-negative and stay within the cap.
proof fn lemma_block_nonneg(sv: Seq<Species>, pop_avg: u64, cap: int, j: int)
    requires
        quotas_nonneg(sv, pop_avg),
        cap >= 0,
        0 <= j <= sv.len(),
    ensures
        0 <= Population::block_start(sv, j, pop_avg, cap) <= cap,
    decreases j,
{
    if j > 0 {
        lemma_block_nonneg(sv, pop_avg, cap, j - 1);
        assert(Population::spec_quota(sv[j - 1], pop_avg) >= 0);
    }
}

/// Block starts grow with the species index.
proof fn lemma_block_monotone(sv: Seq<Species>, pop_avg: u64, cap: int, j1: int, j2: int)
    requires
        quotas_nonneg(sv, pop_avg),
        cap >= 0,
        0 <= j1 <= j2 <= sv.len(),
    ensures
        Population::block_start(sv, j1, pop_avg, cap) <= Population::block_start(
            sv,
            j2,
            pop_avg,
            cap,
        ),
    decreases j2 - j1,
{
    lemma_block_nonneg(sv, pop_avg, cap, j1);
    if j2 > j1 {
        lemma_block_monotone(sv, pop_avg, cap, j1, j2 - 1);
        lemma_block_nonneg(sv, pop_avg, cap, j2 - 1);
        assert(Population::spec_quota(sv[j2 - 1], pop_avg) >= 0);
    }
}

/// Extending the offspring vector beyond the described slots, or by the one
/// slot just described, keeps the layout.
proof fn lemma_slots_extend(
    sv: Seq<Species>,
    orgs: Seq<Genome>,
    fitness: Seq<u64>,
    elitism: int,
    pop_avg: u64,
    cap: int,
    base_orgs: Seq<Genome>,
    base_flags: Seq<bool>,
    g: Genome,
    fl: bool,
    n: int,
)
    requires
        base_flags.len() == base_orgs.len(),
        Population::slots_ok_upto(
            sv,
            orgs,
            fitness,
            elitism,
            pop_avg,
            cap,
            base_orgs,
            base_flags,
            n,
        ),
        n <= base_orgs.len(),
    ensures
        Population::slots_ok_upto(
            sv,
            orgs,
            fitness,
            elitism,
            pop_avg,
            cap,
            base_orgs.push(g),
            base_flags.push(fl),
            n,
        ),
{
    let no = base_orgs.push(g);
    let nf = base_flags.push(fl);
    assert forall|j: int, k: int|
        0 <= j < sv.len() && 0 <= k && Population::block_start(sv, j, pop_avg, cap) <= k
            < Population::block_start(sv, j + 1, pop_avg, cap) && k < n implies #[trigger] Population::slot_ok(
        sv,
        orgs,
        fitness,
        elitism,
        pop_avg,
        cap,
        no,
        nf,
        j,
        k,
    ) by {
        assert(Population::slot_ok(
            sv,
            orgs,
            fitness,
            elitism,
            pop_avg,
            cap,
            base_orgs,
            base_flags,
            j,
            k,
        ));
        assert(no[k] == base_orgs[k]);
        assert(nf[k] == base_flags[k]);
        if k - Population::block_start(sv, j, pop_avg, cap) < elitism {
        } else {
            let (a, b) = choose|a: int, b: int|
                #![trigger sv[j].members@[a], sv[j].members@[b]]
                0 <= a < sv[j].members@.len() && 0 <= b < sv[j].members@.len()
                    && crossover_shape(
                    base_orgs[k]@,
                    orgs[sv[j].members@[a].0 as int]@,
                    orgs[sv[j].members@[b].0 as int]@,
                    fitness[sv[j].members@[a].0 as int] > fitness[sv[j].members@[b].0 as int],
                );
            assert(crossover_shape(
                no[k]@,
                orgs[sv[j].members@[a].0 as int]@,
                orgs[sv[j].members@[b].0 as int]@,
                fitness[sv[j].members@[a].0 as int] > fitness[sv[j].members@[b].0 as int],
            ));
        }
    }
}

/// A slot index below every block's end belongs to exactly one block.
proof fn lemma_block_unique(
    sv: Seq<Species>,
    pop_avg: u64,
    cap: int,
    j1: int,
    j2: int,
    k: int,
)
    requires
        quotas_nonneg(sv, pop_avg),
        cap >= 0,
        0 <= j1 < sv.len(),
        0 <= j2 < sv.len(),
        Population::block_start(sv, j1, pop_avg, cap) <= k < Population::block_start(
            sv,
            j1 + 1,
            pop_avg,
            cap,
        ),
        Population::block_start(sv, j2, pop_avg, cap) <= k < Population::block_start(
            sv,
            j2 + 1,
            pop_avg,
            cap,
        ),
    ensures
        j1 == j2,
{
    if j1 < j2 {
        lemma_block_monotone(sv, pop_avg, cap, j1 + 1, j2);
        assert(false);
    } else if j2 < j1 {
        lemma_block_monotone(sv, pop_avg, cap, j2 + 1, j1);
        assert(false);
    }
}


/// A freshly described slot joins the layout: if the layout held below the
/// slot and the slot sits in block `j_new` with its fact proven, the layout
/// holds one slot further.
proof fn lemma_slots_join(
    sv: Seq<Species>,
    orgs: Seq<Genome>,
    fitness: Seq<u64>,
    elitism: int,
    pop_avg: u64,
    cap: int,
    new_orgs: Seq<Genome>,
    flags: Seq<bool>,
    j_new: int,
    kslot: int,
)
    requires
        quotas_nonneg(sv, pop_avg),
        cap >= 0,
        0 <= j_new < sv.len(),
        Population::block_start(sv, j_new, pop_avg, cap) <= kslot < Population::block_start(
            sv,
            j_new + 1,
            pop_avg,
            cap,
        ),
        Population::slots_ok_upto(sv, orgs, fitness, elitism, pop_avg, cap, new_orgs, flags, kslot),
        Population::slot_ok(sv, orgs, fitness, elitism, pop_avg, cap, new_orgs, flags, j_new, kslot),
    ensures
        Population::slots_ok_upto(
            sv,
            orgs,
            fitness,
            elitism,
            pop_avg,
            cap,
            new_orgs,
            flags,
            kslot + 1,
        ),
{
    assert forall|j: int, k: int|
        0 <= j < sv.len() && 0 <= k && Population::block_start(sv, j, pop_avg, cap) <= k
            < Population::block_start(sv, j + 1, pop_avg, cap) && k < kslot + 1 implies #[trigger] Population::slot_ok(
        sv,
        orgs,
        fitness,
        elitism,
        pop_avg,
        cap,
        new_orgs,
        flags,
        j,
        k,
    ) by {
        if k == kslot {
            lemma_block_unique(sv, pop_avg, cap, j, j_new, k);
        }
    }
}

/// Slots at or past the end of every block are outside the layout, so a
/// bound there can rise freely.
proof fn lemma_slots_vacuous_past_total(
    sv: Seq<Species>,
    orgs: Seq<Genome>,
    fitness: Seq<u64>,
    elitism: int,
    pop_avg: u64,
    cap: int,
    new_orgs: Seq<Genome>,
    flags: Seq<bool>,
    n0: int,
)
    requires
        quotas_nonneg(sv, pop_avg),
        cap >= 0,
        n0 >= Population::block_start(sv, sv.len() as int, pop_avg, cap),
        Population::slots_ok_upto(sv, orgs, fitness, elitism, pop_avg, cap, new_orgs, flags, n0),
    ensures
        forall|n: int|
            #[trigger] Population::slots_ok_upto(
                sv,
                orgs,
                fitness,
                elitism,
                pop_avg,
                cap,
                new_orgs,
                flags,
                n,
            ),
{
    assert forall|n: int|
        #[trigger] Population::slots_ok_upto(
            sv,
            orgs,
            fitness,
            elitism,
            pop_avg,
            cap,
            new_orgs,
            flags,
            n,
        ) by {
        assert forall|j: int, k: int|
            0 <= j < sv.len() && 0 <= k && Population::block_start(sv, j, pop_avg, cap) <= k
                < Population::block_start(sv, j + 1, pop_avg, cap) && k < n implies #[trigger] Population::slot_ok(
            sv,
            orgs,
            fitness,
            elitism,
            pop_avg,
            cap,
            new_orgs,
            flags,
            j,
            k,
        ) by {
            lemma_block_monotone(sv, pop_avg, cap, j + 1, sv.len() as int);
            assert(k < n0);
        }
    }
}


/// The species was founded this generation: its representative is a copy of
/// one of this generation's organisms, and that organism is one of its
/// members (the founder).
pub open spec fn species_founded(s: Species, orgs: Seq<Genome>) -> bool {
    exists|i: int|
        0 <= i < orgs.len() && s.representative@ == (#[trigger] orgs[i])@ && id_count(
            s.members@,
            i as usize,
        ) > 0
}

/// Where a species of the new generation comes from: it survived (keeping
/// its id and representative from the previous generation), or it was
/// founded this generation around one of its own members.
pub open spec fn species_provenance(s: Species, old_sv: Seq<Species>, orgs: Seq<Genome>) -> bool {
    ||| exists|j0: int|
        0 <= j0 < old_sv.len() && s.id == (#[trigger] old_sv[j0]).id && s.representative
            == old_sv[j0].representative
    ||| species_founded(s, orgs)
}

/// Every member's genome lies strictly within the threshold of the species'
/// representative.
pub open spec fn members_within(s: Species, orgs: Seq<Genome>, ct: u64, cfg: &Config) -> bool {
    forall|m: int|
        0 <= m < s.members@.len() ==> clamp_u64(
            spec_distance(orgs[(#[trigger] s.members@[m]).0 as int]@, s.representative@, cfg),
        ) < ct
}

/// Every member's genome is at least as close to its species'
/// representative as to any representative that survived from the previous
/// generation.
pub open spec fn members_nearest(
    s: Species,
    orgs: Seq<Genome>,
    old_sv: Seq<Species>,
    cfg: &Config,
) -> bool {
    forall|m: int, r: int|
        0 <= m < s.members@.len() && 0 <= r < old_sv.len() ==> clamp_u64(
            spec_distance(orgs[(#[trigger] s.members@[m]).0 as int]@, s.representative@, cfg),
        ) <= clamp_u64(
            spec_distance(
                orgs[s.members@[m].0 as int]@,
                (#[trigger] old_sv[r]).representative@,
                cfg,
            ),
        )
}

/// The sum of a fitness buffer.
pub open spec fn sum_fitness(s: Seq<u64>) -> int
    decreases s.len(),
{
    if s.len() == 0 {
        0
    } else {
        sum_fitness(s.drop_last()) + s.last()
    }
}

/// A champion drawn from a mutually consistent population stays consistent
/// with every organism.
proof fn lemma_consistent_new_champion(
    orgs: Seq<Genome>,
    old_champ: Option<Genome>,
    champ: Genome,
    k: int,
)
    requires
        pop_consistent(orgs, old_champ),
        0 <= k < orgs.len(),
        champ@ == orgs[k]@,
        forall|i: int| 0 <= i < orgs.len() ==> (#[trigger] orgs[i])@.wf(),
    ensures
        pop_consistent(orgs, Option::Some(champ)),
{
    assert forall|a: int|
        0 <= a < orgs.len() implies marker_consistent(champ@.conns, (#[trigger] orgs[a])@.conns)
            && marker_consistent((orgs[a])@.conns, champ@.conns) by {
        assert(marker_consistent(orgs[k]@.conns, orgs[a]@.conns));
        assert(marker_consistent(orgs[a]@.conns, orgs[k]@.conns));
    }
    lemma_self_consistent(orgs[k]@.conns);
}

} // verus!
