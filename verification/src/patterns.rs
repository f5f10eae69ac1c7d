//! The results of a pattern scan, as far as the other passes read them.

use vstd::prelude::*;

verus! {

/// What became of one pattern.
#[derive(Debug)]
pub struct PatternHit {
    pub name: String,
    pub module: String,
    pub found: bool,
    /// The place that the pattern resolves to, as an offset into the module.
    pub rva: Option<u64>,
    /// The same place as an address.
    pub va: Option<u64>,
}

} // verus!
