//! Community detection in networks with the OSLOM method (Order Statistics
//! Local Optimization Method): network structure, module collections,
//! Louvain initialisation, overlap resolution and hierarchical aggregation.
//!
//! Edge weights and module scores are values of a type `W` that implements
//! [`weight::Weight`]; the library moves them around and combines them with
//! `W`'s own operators, while node and module bookkeeping is integer logic
//! whose contracts are proved.

pub mod error;
pub mod weight;
pub mod graph;
pub mod modules;
pub mod order;
pub mod random;
pub mod louvain;
pub mod oslom;
pub mod statistics;

pub use error::OslomError;
pub use graph::{Edge, Network, NetworkBuilder, NodeId};
pub use modules::{Module, ModuleCollection, ModuleId};
