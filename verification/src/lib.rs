//! Lookahead search engines for a deterministic, fully observable,
//! turn-based grid game: single-step greedy, width-bounded beam search,
//! iterative per-depth ("chokudai") search, and stochastic hill-climbing
//! over whole placement policies.

pub mod state;
pub mod frontier;
pub mod greedy;
pub mod expand;
pub mod beam;
pub mod chokudai;
pub mod auto;
pub mod hill;
pub mod laws;
pub mod exhaustive;

pub use state::MazeState;
pub use frontier::{Frontier, ScoredState};
pub use greedy::greedy_action;
pub use beam::beam_search_action;
pub use chokudai::chokudai_search_action;
pub use auto::AutoMazeState;
pub use hill::{hill_climb, hill_climb_from};
