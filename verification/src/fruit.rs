use vstd::prelude::*;

verus! {

/// The categorical attribute: the closed set of species a fruit can have.
#[derive(PartialEq, Eq, Structural, Copy, Clone, Debug)]
pub enum Species {
    Apple,
    Pear,
}

/// An item to be prioritised: an immutable value object with one categorical
/// attribute (`species`) and one non-negative numeric attribute (`height`).
#[derive(PartialEq, Eq, Structural, Copy, Clone, Debug)]
pub struct Fruit {
    pub species: Species,
    pub height: usize,
}

impl Fruit {
    pub fn new(species: Species, height: usize) -> (r: Fruit)
        ensures
            r == (Fruit { species, height }),
    {
        Fruit { species, height }
    }

    /// Read-only accessor for the categorical attribute.
    pub fn species(&self) -> (r: &Species)
        ensures
            *r == self.species,
    {
        &self.species
    }

    /// Read-only accessor for the numeric attribute.
    pub fn height(&self) -> (r: &usize)
        ensures
            *r == self.height,
    {
        &self.height
    }
}

} // verus!
