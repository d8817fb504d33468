//! Clusters (flown) and stacks (grounded): what a cluster references, how the
//! references resolve, the topology of each joint, the choice of pick-up
//! holes, and how the worst cases are retained over all clusters.

pub mod aggregate;
pub mod chain;
pub mod joint;
pub mod model;
pub mod rigging;
pub mod worst_cases_selector;

pub use aggregate::{drilled_splay_keys, uncovered_splays, CaseRef, ImpossibleClusterReport};
pub use chain::{bumper_bar_for, resolve_chain, validate_bumper_compatible, ResolvedChain};
pub use joint::JointInconsistency;
pub use model::{ClusterRefs, Compartment, ImpossibleConfiguration, RiggingRequest, RiggingSupport};
pub use worst_cases_selector::{
    select_block_a, select_block_b, BlockACase, BlockBCase, CaseKeys, EnvelopeKeys,
};
