//! A Monte Carlo tree search engine over game trees, with the statistics it
//! gathers, the rules by which it descends a tree, and a game to search.
//!
//! A game is a type with [`GameTreeNode`]. A [`SearchTree`] keeps what the
//! passes of a search find out about the nodes of the game, under the hash
//! of each node's content, and answers which child of a node was visited
//! most. The score by which a fully expanded node chooses among its
//! children is handed to the search as a function from the child's visits,
//! the child's total reward and the parent's visits to an integer: the
//! child with the highest one is taken, the first of them if there are
//! several.
//!
//! What is proved of a search holds whatever the scores are and whichever
//! children chance picks. The clock is one more argument of `search_until`
//! and `run_iteration_until`, which say what follows from what it reads;
//! `search` and `run_iteration` hand them the wall clock.

pub mod backpropagation;
pub mod chance;
pub mod clock;
pub mod descent;
pub mod game_tree_node;
pub mod hashing;
pub mod node_metadata;
pub mod search;
pub mod search_config;
pub mod search_tree;
pub mod selection;
pub mod store;
pub mod strategy;
pub mod tic_tac_toe;

pub use crate::game_tree_node::GameTreeNode;
pub use crate::game_tree_node::NodeState;
pub use crate::node_metadata::NodeMetadata;
pub use crate::node_metadata::NodeStats;
pub use crate::search_config::SearchConfig;
pub use crate::search_tree::SearchTree;
pub use crate::strategy::LearningSearchTreeStrategy;
pub use crate::strategy::RandomStrategy;
pub use crate::strategy::Strategy;
pub use crate::tic_tac_toe::Player;
pub use crate::tic_tac_toe::TicTacToeState;
