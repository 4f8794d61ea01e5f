//! What is known of a program besides its declarations.

use std::collections::HashMap;
use vstd::prelude::*;

use crate::ir::TypeId;

verus! {

/// What the type checker has found out about a program.
#[derive(Debug)]
pub struct ProgramMetadata {
    /// The names of the types.
    pub type_names: HashMap<TypeId, String>,
}

impl ProgramMetadata {
    /// Whether the type `id` has the name `name`.
    pub open spec fn is_type_name(self, id: TypeId, name: Seq<char>) -> bool {
        self.type_names@.dom().contains(id) && self.type_names@[id]@ == name
    }
}

} // verus!
