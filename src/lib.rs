//! Population movement between regions over a network of transport ports,
//! with the total population conserved at every tick.

pub mod error;
pub mod random;
pub mod population;
pub mod location;
pub mod region;
pub mod transportation_graph;
pub mod simulation_geography;
pub mod transportation_allocator;
pub mod region_transportation_mediator;
pub mod growth_functions;
