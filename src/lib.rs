//! Complete, stable and preferred semantics of abstract argumentation
//! frameworks, computed through a SAT encoding of labellings.

pub mod cnf;
pub mod sat;
pub mod af;
pub mod semantics;
pub mod encoder;
pub mod preferred;
pub mod laws;
pub mod encoding;
pub mod graph;
