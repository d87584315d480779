//! Path search over a store of vertices: breadth-first, depth-first,
//! Dijkstra and A* searches, and neighbourhood queries.
pub mod filter;
pub mod graph_functions;
pub mod graph_vertex;
pub mod model;
pub mod queue;
pub mod store;
pub mod types;
pub mod visited;

pub use filter::{FilterComponent, FilterGraphError};
pub use graph_functions::astar::{a_star_computed_end, a_star_multiple_ends, a_star_search};
pub use graph_functions::bfs::{bfs, bfs_computed_end, bfs_multiple_end};
pub use graph_functions::dfs::{dfs, dfs_computed_end, dfs_multiple_end};
pub use graph_functions::dijkstra::{dijkstra_computed_end, dijkstra_multiple_end, dijkstra_search};
pub use graph_functions::neighbourhood::{at_step, within_distance, within_steps};
pub use graph_vertex::{GraphVertex, StandardGraphVertex};
pub use store::{Graph, StoreEntry, VertexStore};
pub use types::{Edge, GraphError, GraphPath, Heuristic, NoneValueResponse, PathWeight, VertexId};
pub use visited::{VisitedNodes, VisitedRecord};
