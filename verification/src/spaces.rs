//! The concrete spaces the gluing engine is exercised over: an undirected
//! graph and a cell complex.

pub mod cell_complex;
pub mod undirected_graph;
