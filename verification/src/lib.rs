use vstd::prelude::*;

pub mod adjacency;
pub mod config;
pub mod connectivity;
pub mod connection_gene;
pub mod crossover;
pub mod distance;
pub mod fixtures;
pub mod genome;
pub mod mutation;
pub mod neat;
pub mod node_gene;
pub mod pools;
pub mod population;
pub mod rng;
pub mod species;
pub mod vecset;

pub use config::Config;
pub use connection_gene::{conn_hashcode, ConnectionGene};
pub use crossover::crossover;
pub use distance::distance;
pub use genome::Genome;
pub use mutation::{
    mutate_conn_enabled, mutate_new_conn, mutate_new_node, mutate_weight_random,
    mutate_weight_shift,
};
pub use neat::{mutate, Neat};
pub use node_gene::NodeGene;
pub use population::{NeatError, Population};
pub use species::Species;

verus! {

/// Role of a node within a network: where it sits in the feed-forward order.
#[derive(Clone, Copy, Debug, PartialEq, Eq, Structural)]
pub enum NodeType {
    Input,
    Bias,
    Output,
    Hidden,
}

} // verus!
