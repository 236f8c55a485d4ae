//! Grammar-aware mutation of source files: fragments of one parse tree are
//! spliced into another, or deleted, to produce plausible inputs for a parser
//! or compiler under test.
//!
//! A session starts with [`splice`]: the corpus is read into snapshots, the
//! branch table is built from all of it, and a [`Splicer`] hands out the test
//! cases. Each test case is a text of the corpus after some rounds; a round
//! decides on one edit, renders the text with it and parses the result anew.
//!
//! - `snapshot`: a parse tree as plain values, and its level-order walk.
//! - `parsing`: tree-sitter's parser, and reading its trees into snapshots.
//! - `branches`: the branch table and its budget.
//! - `node_types`: which kinds of node are optional.
//! - `rng`: the seeded random draws.
//! - `select`: the choice of the node and of what replaces it.
//! - `render`: tree-sitter-edit's rendering of one replacement.
//! - `splice`: rounds, test cases and sessions.
//! - `edits`: replacements by node id.
//! - `bytes`: spans of bytes.
//! - `laws`: what holds of all of this, whatever is drawn.

pub mod branches;
pub mod bytes;
pub mod edits;
pub mod laws;
pub mod node_types;
pub mod parsing;
pub mod render;
pub mod rng;
pub mod select;
pub mod snapshot;
pub mod splice;

pub use crate::edits::Edits;
pub use crate::node_types::NodeTypes;
pub use crate::splice::splice;
pub use crate::splice::Config;
pub use crate::splice::SpliceError;
pub use crate::splice::Splicer;
