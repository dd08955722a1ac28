pub mod graph;

pub use graph::analyzer;
pub use graph::DiGraph;
pub use graph::EmptyPayload;
