//! A loaded signature file.
use vstd::prelude::*;

use crate::signature::Signature;

verus! {

/// A file path and its content.
#[derive(Debug, Clone)]
pub struct Buffer {
    pub name: String,
    pub content: String,
}

impl Buffer {
    pub fn new(name: String, content: String) -> (r: Self)
        ensures
            r.name@ == name@,
            r.content@ == content@,
    {
        Buffer { name, content }
    }
}

/// A parsed RBS source file: its buffer and what was parsed from it.
#[derive(Debug)]
pub struct Source {
    pub buffer: Buffer,
    pub signature: Signature,
}

impl Source {
    pub fn new(path: String, content: String, signature: Signature) -> (r: Self)
        ensures
            r.buffer.name@ == path@,
            r.buffer.content@ == content@,
            r.signature == signature,
    {
        Source { buffer: Buffer::new(path, content), signature }
    }
}

} // verus!
