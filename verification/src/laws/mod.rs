//! What the answers mean, said of the engine's findings and of the client's requests
//! themselves.

pub mod answers;
pub mod basics;
pub mod caching;
pub mod completion;
pub mod definition;
pub mod documents;
pub mod editing;
pub mod findings;
pub mod references;
pub mod serving;
pub mod symbols;
