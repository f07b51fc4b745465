//! Search-index building blocks: byte trigrams, file zones and the
//! adaptive line search.

pub mod trigram;
pub mod zone;
pub mod types;
pub mod adaptive;
pub mod bitset;
pub mod token;
