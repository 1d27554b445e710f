//! Native engine for Context-Free-Language Ordered Binary Decision
//! Diagrams (CFLOBDDs): a compressed representation of boolean functions
//! over 2^k variables, due to Sistla, Chaudhuri, and Reps.

mod canonical;
mod counting;
mod manager;
mod node;
mod pair_product;
mod path_count;
mod reach;
mod reduce;
mod restrict;
mod return_map;
mod semantics;

pub use manager::{Bdd, Manager};
pub use node::NodeId;
pub use pair_product::{
    is_identity_return_map, BoolOp, AND_OP, IFF_OP, IMPLIES_OP, NAND_OP, NOR_OP, OR_OP, XOR_OP,
};
pub use reduce::is_identity;
pub use canonical::lemma_dedupe_unique;
pub use restrict::dedupe_first_seen;
pub use semantics::dedupes;
pub use return_map::ReturnMapId;
