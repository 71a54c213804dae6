//! And-Inverter Graph construction and K-feasible cut enumeration.
//!
//! The crate lowers a gate-level netlist (single-bit nets, a small library of
//! two-input gates) into an AIG with polarity-encoded edges, computes a
//! topological order of the nodes reachable from the primary outputs, and
//! enumerates K-feasible cuts with subsumption filtering plus per-cut
//! arrival-time and area-flow annotations.

pub mod aig;
pub mod cut;
pub mod cuts;
pub mod dot;
pub mod edge;
pub mod laws;
pub mod lower;
pub mod netlist;
pub mod topo;
