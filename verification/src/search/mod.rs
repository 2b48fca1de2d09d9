//! Weighted graphs and the strategies that search them.

pub mod adjacency;
pub mod best_first;
pub mod bidirectional_best_first;
pub mod breadth_first;
pub mod cost;
pub mod depth_first;
pub mod examples;
pub mod goal;
pub mod iterative_deepening;
pub mod relaxation;
pub mod result;
pub mod state_graph;
pub mod walk;

pub use self::best_first::best_first;
pub use self::bidirectional_best_first::bidirectional_best_first;
pub use self::breadth_first::breadth_first;
pub use self::cost::HasZero;
pub use self::depth_first::depth_first;
pub use self::iterative_deepening::iterative_deepening;
pub use self::result::SearchResult;
