// The types found for the nodes of the tree.

use crate::ast::Type;
use std::collections::HashMap;
use vstd::prelude::*;

verus! {

broadcast use vstd::std_specs::hash::group_hash_axioms;

/// Represents typing information attached to the Abstract Syntax
/// Tree.
#[derive(Clone, Debug, PartialEq)]
pub struct TypeMap {
    map: HashMap<usize, Type>,
}

impl TypeMap {
    /// The type recorded for each node which has one.
    pub closed spec fn view(&self) -> Map<usize, Type> {
        self.map@
    }

    /// A map in which no node has a type yet.
    pub fn new() -> (types: Self)
        ensures
            types@ == Map::<usize, Type>::empty(),
    {
        let map = HashMap::new();
        Self { map }
    }

    /// Record the type of a node of the tree, in place of any recorded
    /// for it before.
    pub fn map(&mut self, index: usize, element: Type)
        ensures
            final(self)@ == old(self)@.insert(index, element),
    {
        // Store details
        self.map.insert(index, element);
    }
}

} // verus!
