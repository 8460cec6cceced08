//! Circuit-topology reduction and linear-system solving.
//!
//! Given a set of placed one- or two-terminal circuit elements anchored at
//! grid coordinates, the library builds a node/connection graph, simplifies
//! it by merging nodes bridged by zero-impedance elements and pruning
//! dangling nodes, assembles a modified-nodal-analysis linear system over
//! exact rational numbers, solves it, and maps the solution back onto the
//! original node set.

use vstd::prelude::*;

pub mod assemble;
pub mod builder;
pub mod graph;
pub mod laws;
pub mod pipeline;
pub mod rational;
pub mod simplify;
pub mod solve;

verus! {

/// Toggles for the optional, purely informational trace output of the
/// surrounding application; none of them affects what is computed.
pub struct DebugOptions {
    pub show_node_numbers: bool,
    pub show_node_voltages: bool,

    pub info_simplfication: bool,
    pub info_admittance_matrix: bool,
    pub info_injected_currents: bool,
    pub info_node_voltages: bool,
    pub info_node_map: bool,
}

impl DebugOptions {
    pub fn new() -> (r: Self)
        ensures
            !r.show_node_numbers,
            !r.show_node_voltages,
            !r.info_simplfication,
            !r.info_admittance_matrix,
            !r.info_injected_currents,
            !r.info_node_voltages,
            !r.info_node_map,
    {
        Self {
            show_node_numbers: false,
            show_node_voltages: false,

            info_simplfication: false,
            info_admittance_matrix: false,
            info_injected_currents: false,
            info_node_voltages: false,
            info_node_map: false,
        }
    }
}

} // verus!
