//! SA303 rigging core: the parts of the calculation that decide rather than
//! measure — which shipped catalogue entries are protected, how a cluster's
//! references resolve against the catalogue, which worst cases are retained
//! over all clusters, which pick-up holes a request offers and which one is
//! kept — each stated and proved over plain values.

pub mod bumper;
pub mod cluster;
pub mod export;
pub mod persistence;
pub mod seed;
pub mod settings;
pub mod speaker;
pub mod text;

pub use cluster::aggregate::{aggregate_outline, AggregateOutline, ImpossibleClusterReport};
pub use cluster::model::ImpossibleConfiguration;
