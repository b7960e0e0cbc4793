//! The repository's listing of every package and its version strings.

use vstd::prelude::*;

verus! {

/// One package of the listing.
#[derive(Debug, Clone, PartialEq, Eq)]
pub struct Package {
    pub name: String,
    pub versions: Vec<String>,
}

/// The whole listing.
#[derive(Debug, Clone, PartialEq, Eq)]
pub struct Versions {
    pub packages: Vec<Package>,
}

} // verus!
