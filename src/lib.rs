//! Core of an adaptive large neighbourhood search for the capacitated vehicle
//! routing problem: a node registry with its distance table, the route
//! topology of a tour, and one destroy and one rebuild operator.

pub mod reg;
pub mod tour;
pub mod ops;
