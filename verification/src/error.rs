//! Errors reported while building an environment.
use vstd::prelude::*;

verus! {

/// Why loading or inserting signatures failed.
#[derive(Debug, Clone, PartialEq, Eq)]
pub enum Error {
    /// A file could not be read.
    Io { path: String, message: String },
    /// A file could not be parsed.
    Parse { path: String, message: String },
    /// A name was declared twice in incompatible ways; `name` is its
    /// printed form.
    DuplicatedDeclaration { name: String },
    /// A requested library is in no repository.
    UnknownLibrary { name: String },
}

} // verus!
