//! Flow allocation on a fixed-topology network.
//!
//! A [`topology::Network`] is a set of directed, capacitated links between
//! numbered nodes. Given a demand matrix, the solver routes each ordered pair
//! in turn along breadth-first shortest augmenting paths and reports the flow
//! placed on every link together with the demand that could not be routed.

pub mod conservation;
pub mod demand;
pub mod laws;
pub mod monotonicity;
pub mod paths;
pub mod routing;
pub mod search;
pub mod solver;
pub mod topology;

pub use solver::{FlowAssignment, UnmetDemand};
pub use topology::{Kind, Link, Network, NetworkError, NetworkView};
