pub mod arena;
pub mod directive;
pub mod discovery;
pub mod env;
pub mod error;
pub mod interner;
pub mod materialize;
pub mod paths;
pub mod repository;
pub mod resolver;
pub mod signature;
pub mod source;
pub mod syntax;
pub mod text;

pub use env::Environment;
pub use error::Error;
pub use source::Source;

use vstd::prelude::*;

verus! {

/// The library's version.
pub fn version() -> (v: &'static str)
    ensures
        v@ == "0.1.0"@,
{
    "0.1.0"
}

} // verus!
