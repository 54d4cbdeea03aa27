//! A reverse-mode automatic-differentiation engine over scalar expression
//! graphs, laid out as an arena of nodes addressed by index.
//!
//! - `graph`: the arena and the operators that append nodes to it;
//! - `order`: the depth-first topological order of what a node depends on;
//! - `backward`: the chain-rule steps of a backward pass, in an order that
//!   completes each gradient before it is passed on;
//! - `network`: neurons, layers and feed-forward networks built in an arena.
//!
//! The arena stores the caller's constants (leaf values, exponents) as an
//! opaque payload and never computes with them: evaluating the nodes and
//! running the planned steps is left to the caller's number type.

pub mod backward;
pub mod graph;
pub mod network;
pub mod order;
