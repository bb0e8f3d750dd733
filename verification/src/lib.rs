//! Verified core of the FJ contracting toolkit: graph construction and
//! parsing, influencer selection, and integer statistics.
/// Agents' actions in the FJ contracting model.
pub mod fj_contract;
/// Shape checks and counts for Friedkin-Johnson networks.
pub mod friedkin_johnson;
/// Parameters of the experiments on hyperbolic random graphs.
pub mod hrg;
/// Loading and converting graphs.
pub mod graphloader;
/// Random graph generators.
pub mod graphgenerator;
/// Selecting influencers of an instance.
pub mod instancegenerator;
/// Solver kinds and integer bookkeeping of solutions.
pub mod instancesolver;
/// Integer statistics over histories of results.
pub mod statistics;
