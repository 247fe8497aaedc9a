//! An undirected weighted graph stored as a list of directed edge records,
//! together with a generator for randomly connected graphs: every connection
//! is held as a symmetric pair of records, and the generator joins a shuffled
//! visiting order of the nodes into a spanning chain.

pub mod connectivity;
pub mod graph;
pub mod random;

pub use graph::AdjList;
pub use graph::EdgeRecord;
pub use graph::NodeIndex;
pub use graph::Weight;
pub use random::MAX_WEIGHT;
pub use random::MIN_WEIGHT;
