//! Deterministic-execution foundation library: safe integers, logical time,
//! execution contexts, content-addressed identifiers, audit logs, transport
//! routing, graph algorithms, validation and domain types.

pub mod text;
pub mod errors;
pub mod primitives;
pub mod time;
pub mod hash;
pub mod id;
pub mod graph_types;
pub mod graph;
pub mod ordered_map;
pub mod context;
pub mod audit;
pub mod traits;
pub mod types;
pub mod transport;
pub mod agent_types;
pub mod blueprint_types;
pub mod math;
pub mod validation;
pub mod determinism;
