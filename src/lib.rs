//! A Monte Carlo tree search engine for two-player games of perfect information.
pub mod error;
pub mod numeric;
pub mod position;
mod random;
pub mod score;
pub mod tree;

pub use error::{Error, ErrorKind};
pub use position::{Color, GamePosition};
pub use score::{GameResult, Score};
pub use tree::{MonteCarloTree, SearchError};
