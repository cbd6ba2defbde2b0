//! A local optimizing pass pipeline for a minimal three-address
//! intermediate representation: block partitioning with successor
//! resolution, local value numbering (common-subexpression elimination
//! and copy propagation), and two dead-code elimination fixpoints.

pub mod cfg;
pub mod dce;
pub mod lvn;
pub mod parser;
pub mod table;
