//! The inference engine: unification, forward chaining and backward chaining.
pub mod backward;
pub mod forward;
pub mod unification;

use vstd::prelude::*;
use crate::types::KnowledgeBase;

verus! {

/// An engine over a knowledge base.
pub struct Engine {
    pub kb: KnowledgeBase,
}

impl Engine {
    /// An engine over the given knowledge base.
    pub fn new(kb: KnowledgeBase) -> (e: Self)
        ensures
            e.kb == kb,
    {
        Self { kb }
    }
}

} // verus!
