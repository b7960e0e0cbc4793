//! The signature envelope every repository resource is wrapped in.

use vstd::prelude::*;

verus! {

/// A signed resource: the signature covers the payload bytes.
#[derive(Debug, Clone, PartialEq, Eq)]
pub struct Signed {
    pub payload: Vec<u8>,
    pub signature: Vec<u8>,
}

} // verus!
