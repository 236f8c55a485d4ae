//! Rendering a text with one node replaced, by tree-sitter-edit.

use crate::bytes::spliced;
use crate::parsing::node_spans;
use std::io::Error;
use tree_sitter::Tree;
use tree_sitter_edit::NodeId;
use tree_sitter_edit::Replace;
use vstd::prelude::*;

verus! {

/// The error of std for a write that failed, taken as it is.
#[verifier::external_type_specification]
#[verifier::external_body]
pub struct ExIoError(Error);

/// `text` with the span that `spans` gives the node `id` replaced by
/// `bytes`; `text` itself where `spans` has no such node.
pub open spec fn rendered(
    spans: Map<usize, (usize, usize)>,
    text: Seq<u8>,
    id: usize,
    bytes: Seq<u8>,
) -> Seq<u8> {
    if spans.contains_key(id) {
        spliced(text, spans[id].0 as int, spans[id].1 as int, bytes)
    } else {
        text
    }
}

/// `render` of tree-sitter-edit with its editor `Replace`, into a fresh
/// vector. `Replace` looks for the node of `tree` with the id `id` and has
/// one edit for it, from the node's start to its end; `render` writes
/// `text` up to that start, then `bytes`, then `text` from that end on, and
/// all of `text` where there is no such node. It slices `text` at the
/// node's start and end and panics where they lie beyond it, which the
/// `requires` rules out. An error is one of writing.
#[verifier::external_body]
pub(crate) fn render_replace(tree: &Tree, text: &[u8], id: usize, bytes: &Vec<u8>) -> (out: Result<
    Vec<u8>,
    Error,
>)
    requires
        node_spans(*tree).contains_key(id) ==> node_spans(*tree)[id].0 <= node_spans(*tree)[id].1
            <= text@.len(),
    ensures
        out matches Ok(written) ==> written@ == rendered(node_spans(*tree), text@, id, bytes@),
{
    let mut written: Vec<u8> = Vec::new();
    let editor = Replace { id: NodeId { id }, bytes: bytes.clone() };
    tree_sitter_edit::render(&mut written, tree, text, &editor)?;
    Ok(written)
}

} // verus!
