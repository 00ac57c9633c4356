//! Lebesgue measure on R^n: the part that holds no real numbers.

use vstd::prelude::*;

verus! {

/// Lebesgue measure on R^n, identified by its dimension.
#[derive(Debug)]
pub struct LebesgueMeasure {
    dimension: usize,
}

impl Clone for LebesgueMeasure {
    fn clone(&self) -> (r: Self)
        ensures
            r.dim() == self.dim(),
    {
        LebesgueMeasure { dimension: self.dimension }
    }
}

impl LebesgueMeasure {
    /// The dimension n, as a spec value.
    pub closed spec fn dim(self) -> usize {
        self.dimension
    }

    /// Lebesgue measure on R^dimension.
    pub fn new(dimension: usize) -> (r: LebesgueMeasure)
        ensures
            r.dim() == dimension,
    {
        LebesgueMeasure { dimension }
    }

    /// Dimension.
    pub fn dimension(&self) -> (r: usize)
        ensures
            r == self.dim(),
    {
        self.dimension
    }
}

} // verus!
