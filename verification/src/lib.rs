//! A Markov-chain text engine: sentence-bounded tokenization, additive
//! n-gram frequency training, weighted random sampling, and generation.

pub mod errors;
pub mod laws;
pub mod markov;
pub mod model;
pub mod sample;
pub mod token;
pub mod tokenize;

pub use errors::MarkovError;
pub use markov::Markov;
pub use token::Token;
