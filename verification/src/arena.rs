//! Arena façade: a placeholder the environment can grow an allocator
//! behind.
use vstd::prelude::*;

verus! {

#[derive(Debug, Default)]
pub struct Arena;

impl Arena {
    pub fn new() -> (r: Self) {
        Arena
    }
}

} // verus!
