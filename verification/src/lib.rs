//! A generic engine for solving state-space search problems expressed as
//! implicit trees: a problem defines an initial state, a set of legal
//! operators per state, and a goal test; the engine explores reachable
//! states to find an operator sequence from the initial state to a goal
//! state.

pub mod bfs;
pub mod dfs;
pub mod examples;
pub mod queue;
pub mod traits;

pub use queue::VecDeQueue;
pub use traits::Heuristic;
pub use traits::Invertable;
pub use traits::Lookup;
pub use traits::Norm;
pub use traits::Operable;
pub use traits::PrioQueue;
pub use traits::ProblemTree;
pub use traits::Queue;
