//! Changes of sequences of units.

use std::ops::Range;
use vstd::prelude::*;

verus! {

/// One replacement in a sequence.
#[derive(Debug)]
pub struct Splice<Unit> {
    pub old_range: Range<usize>,
    pub new_range: Range<usize>,
    pub removed: Vec<Unit>,
    pub inserted: Vec<Unit>,
}

/// All replacements in the sequence at one address.
#[derive(Debug)]
pub struct AddressChange<Address, Unit> {
    pub address: Address,
    pub old_extent: usize,
    pub new_extent: usize,
    pub splices: Vec<Splice<Unit>>,
}

} // verus!
