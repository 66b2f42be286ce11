use vstd::prelude::*;

use crate::fruit::Species;

verus! {

/// Why a prioritisation request failed.
#[derive(PartialEq, Eq, Structural, Copy, Clone, Debug)]
pub enum PrioritisationError {
    /// A species occurs in the data but is absent from the declared category
    /// order: the order list must be exhaustive over the attribute's domain.
    Configuration { species: Species },
    /// Top-element selection was asked of an empty collection.
    EmptyInput,
}

} // verus!
