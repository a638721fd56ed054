//! Parser and tree model for a Clausewitz-style scripting language:
//! whitespace-separated tokens forming nested `key = value` pairs,
//! `key = { ... }` blocks, bare leaf tokens and `#` line comments.
//!
//! Raw text is parsed into a [`Tree`] of named [`Node`]s; trees from many
//! files can be merged into one namespace, queried by name, mutated, and
//! serialized back to the same textual grammar.

pub mod consts;
pub mod country;
pub mod data;
pub mod goods;
pub mod keyed;
pub mod law;
pub mod laws;
pub mod node;
pub mod parser;
pub mod pmg;
pub mod roundtrip;
pub mod scanner;
pub mod serialize;
pub mod text;
pub mod tree;
pub mod utils;

pub use node::Node;
pub use parser::Parser;
pub use tree::Tree;
pub use tree::TreeError;
