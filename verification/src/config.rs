use vstd::prelude::*;

verus! {

/// Upper bound on node markers; connection hash codes are computed as
/// `from * MAX_NODES + to + 1`, so they are injective while markers stay
/// below this bound.
pub const MAX_NODES: u64 = 1048576;

/// All tunable parameters of a training run, loaded once at start-up.
///
/// Quantities that are conceptually real-valued (weights, coordinates,
/// fitness, distances, probabilities) are carried as fixed-point integers in
/// thousandths, so `1000` stands for `1.0`.
pub struct Config {
    /// Number of genomes in the population; constant across generations.
    pub population_size: usize,
    /// Number of input nodes of every network.
    pub inputs: usize,
    /// Number of output nodes of every network.
    pub outputs: usize,
    /// Whether a bias node is present.
    pub bias: bool,
    /// How many top members of each species survive unmutated.
    pub elitism: usize,
    /// Species count the compatibility threshold steers toward.
    pub target_species: usize,
    /// Starting compatibility threshold, in thousandths.
    pub compat_threshold: u64,
    /// Floor below which the compatibility threshold never falls, in thousandths.
    pub compat_min: u64,
    /// Step by which the threshold is adjusted each generation, in thousandths.
    pub compat_modifier: u64,
    /// Generations without improvement after which a species is penalized.
    pub dropoff_age: u64,
    /// Distance weight for excess genes, in thousandths.
    pub c1: u64,
    /// Distance weight for disjoint genes, in thousandths.
    pub c2: u64,
    /// Distance weight for the mean weight difference, in thousandths.
    pub c3: u64,
    /// Largest magnitude of a freshly randomized weight, in thousandths.
    pub weight_random_max: i64,
    /// Relative size of a weight shift, in thousandths.
    pub weight_shift_max_pct: i64,
    /// Probability of toggling a connection, in thousandths.
    pub m_conn_enabled: u64,
    /// Probability of randomizing a weight, in thousandths.
    pub m_weight_random: u64,
    /// Probability of shifting a weight, in thousandths.
    pub m_weight_shift: u64,
    /// Probability of an add-node mutation, in thousandths.
    pub m_node: u64,
    /// Probability of an add-connection mutation, in thousandths.
    pub m_conn: u64,
    /// Bound on the retries of the structural mutation operators.
    pub max_iter: usize,
    /// Worker count for a caller-run parallel evaluation phase.
    pub num_threads: usize,
}

impl Config {
    /// Basic sanity of a configuration; every engine entry point assumes it.
    pub open spec fn wf(&self) -> bool {
        &&& self.population_size >= 1
        &&& self.inputs >= 1
        &&& self.outputs >= 1
        &&& self.inputs + if self.bias { 1int } else { 0int } + self.outputs < MAX_NODES
        &&& self.compat_threshold >= self.compat_min
        &&& self.compat_min >= 1
        &&& self.compat_modifier >= 1
        &&& self.weight_random_max >= 1
        &&& self.c1 <= 1000000
        &&& self.c2 <= 1000000
        &&& self.c3 <= 1000000
        &&& 0 <= self.weight_shift_max_pct <= 1000
        &&& self.elitism <= self.population_size
    }

    /// The default parameter set for the XOR task: 2 inputs, 1 output, a bias
    /// node, and the customary distance weights (1.0, 1.0, 0.4).
    pub fn default_config() -> (c: Config)
        ensures
            c.wf(),
            c.inputs == 2,
            c.outputs == 1,
            c.bias,
            c.population_size == 1000,
    {
        Config {
            population_size: 1000,
            inputs: 2,
            outputs: 1,
            bias: true,
            elitism: 2,
            target_species: 50,
            compat_threshold: 8000,
            compat_min: 5,
            compat_modifier: 500,
            dropoff_age: 50,
            c1: 1000,
            c2: 1000,
            c3: 400,
            weight_random_max: 5000,
            weight_shift_max_pct: 100,
            m_conn_enabled: 0,
            m_weight_random: 400,
            m_weight_shift: 800,
            m_node: 20,
            m_conn: 100,
            max_iter: 100,
            num_threads: 4,
        }
    }

    /// Same parameters with a caller-chosen population size, for smaller runs.
    pub fn with_population_size(size: usize) -> (c: Config)
        requires
            size >= 1,
        ensures
            c.wf(),
            c.population_size == size,
            c.inputs == 2,
            c.outputs == 1,
            c.bias,
    {
        let mut c = Config::default_config();
        c.population_size = size;
        c.elitism = if size < 2 { size } else { 2 };
        c
    }
}

} // verus!
