//! Equality-constrained tree automata: a hash-consed store of automaton
//! states with union and intersection, and path-equality constraints kept as
//! compact automata over argument positions.

pub mod constraints;
pub mod edge;
pub mod graph;
pub mod label;
pub mod laws;
pub mod model;
pub mod node;
pub mod path_class;
pub mod paths;
pub mod product;
pub mod reduce;
pub mod runs;
pub mod store;
pub mod text;
pub mod transducer;

pub use crate::constraints::Constraints;
pub use crate::constraints::PathConstraintStringify;
pub use crate::edge::ECTANode;
pub use crate::edge::Edge;
pub use crate::label::ECTATrait;
pub use crate::node::Node;
pub use crate::path_class::ConstraintError;
pub use crate::path_class::PathEClass;
pub use crate::path_class::PathIdx;
pub use crate::paths::Id;
pub use crate::reduce::EdgeRef;
pub use crate::store::EctaError;
pub use crate::store::ECTA;
