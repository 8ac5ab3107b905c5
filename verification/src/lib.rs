//! A Markov-chain text generator: trains an n-gram model over the
//! whitespace tokens of a corpus, treating the token sequence as circular,
//! and generates text by weighted random sampling of recorded successors.

pub mod builder;
pub mod generate;
pub mod model;
pub mod sampling;
pub mod tokens;
