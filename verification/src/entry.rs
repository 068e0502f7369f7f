//! One individual: an identifier and a bounded trait value.

use vstd::prelude::*;

verus! {

/// An individual of a deme.
///
/// `id` orders the individuals of one generation; `ru` is the evolving trait.
#[derive(Debug, Clone, Copy, PartialEq, Eq, Structural)]
pub struct DemeEntry {
    pub id: u32,
    pub ru: i8,
}

} // verus!
