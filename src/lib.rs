//! Weighted road-network model for tow dispatch: a graph of nodes and
//! undirected weighted edges, and a verified shortest-path search.

pub mod graph;
mod search;
pub mod order;
pub mod walk;

pub use graph::{Edge, Graph, Node};
pub use order::UpdateOrderStatusRequestDto;
