//! An in-memory, directed, labeled multigraph with a round-trippable
//! text serialization ("Trivial Graph Format").
//!
//! Vertices carry optional labels and are identified by integer ids issued
//! by a monotone allocator; parallel edges between the same ordered pair of
//! vertices are kept as an ordered list of optional labels. A reverse index
//! records, for every vertex, the set of sources with at least one edge into
//! it, and is proved to stay in sync with the forward adjacency on every
//! mutation.

pub mod codec;
pub mod graph;

pub use codec::TgfError;
pub use graph::EdgeGroup;
pub use graph::Graph;
pub use graph::GraphError;
pub use graph::Vertex;
