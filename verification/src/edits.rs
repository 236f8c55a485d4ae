//! A set of edits to a parse tree: replacement bytes by node id.

use std::collections::HashMap;
use vstd::prelude::*;
use vstd::slice::slice_to_vec;

verus! {

broadcast use vstd::std_specs::hash::group_hash_axioms;

/// The replacement for each node that is to be edited, by the node's id.
#[derive(Debug)]
pub struct Edits<'a>(HashMap<usize, &'a [u8]>);

impl<'a> View for Edits<'a> {
    type V = Map<usize, Seq<u8>>;

    closed spec fn view(&self) -> Map<usize, Seq<u8>> {
        self.0@.map_values(|bytes: &'a [u8]| bytes@)
    }
}

impl<'a> Edits<'a> {
    /// No edits.
    pub fn new() -> (edits: Self)
        ensures
            edits@ == Map::<usize, Seq<u8>>::empty(),
    {
        let edits = Edits(HashMap::new());
        assert(edits@ =~= Map::<usize, Seq<u8>>::empty());
        edits
    }

    /// Puts down `bytes` as the replacement for the node `id`, in place of
    /// an earlier one.
    pub fn insert(&mut self, id: usize, bytes: &'a [u8])
        ensures
            final(self)@ == old(self)@.insert(id, bytes@),
    {
        self.0.insert(id, bytes);
        assert(self@ =~= old(self)@.insert(id, bytes@));
    }

    /// Whether there is an edit for the node `id`.
    pub fn has_edit(&self, id: usize) -> (has: bool)
        ensures
            has == self@.contains_key(id),
    {
        self.0.get(&id).is_some()
    }

    /// The replacement for the node `id`.
    pub fn edit(&self, id: usize) -> (bytes: Vec<u8>)
        requires
            self@.contains_key(id),
        ensures
            bytes@ == self@[id],
    {
        match self.0.get(&id) {
            Some(found) => slice_to_vec(*found),
            None => Vec::new(),
        }
    }
}

impl<'a> Default for Edits<'a> {
    fn default() -> (edits: Self)
        ensures
            edits@ == Map::<usize, Seq<u8>>::empty(),
    {
        Edits::new()
    }
}

} // verus!
