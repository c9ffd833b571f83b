use vstd::prelude::*;

verus! {

/// Failures that the library reports to its callers.
#[derive(Debug, Clone, Copy, PartialEq, Eq, Structural)]
pub enum SimError {
    /// A population was asked to give up more people of some health state than it has.
    InsufficientPopulation,
    /// A port with this id is already registered.
    DuplicatePort(u32),
    /// A connection from a port to itself was requested.
    SelfLoop(u32),
    /// The connection between these two ports already exists.
    DuplicateConnection(u32, u32),
    /// No port with this id is known.
    UnknownPort(u32),
    /// No region with this id is known.
    UnknownRegion(u32),
    /// The ports held by the regions do not match the ports of the graph.
    InconsistentGeography,
    /// The combined population does not fit in the counters.
    PopulationOverflow,
}

} // verus!
