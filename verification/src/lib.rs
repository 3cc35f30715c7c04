mod buffer;
pub mod laws;
pub mod lemmas;
pub mod model;
pub mod order;
pub mod tree;

pub use model::Segment;
pub use tree::RangeTree;
