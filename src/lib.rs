//! A DNS gateway core: the wire codec for headers, names and questions, the
//! synthesis of answer records from resolved values, and a wildcard rule trie.

pub mod wire;
pub mod name;
pub mod response;
pub mod rule_trie;
pub mod service;
