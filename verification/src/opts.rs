use vstd::prelude::*;
use core::ops::RangeInclusive;

verus! {

/// Which layers (or entries) an operation goes over.
#[derive(Clone, Copy, PartialEq, Eq, Structural, Debug)]
pub enum EntryOpts {
    All,
    Single(u32),
}

/// Which layers an operation goes over.
pub type LayerOpts = EntryOpts;

impl EntryOpts {
    /// The indexes of the layers chosen: all four, or the single one.
    pub fn to_range(self) -> (r: RangeInclusive<usize>)
        ensures
            !r@.exhausted,
            self is All ==> r@.start == 0 && r@.end == 3,
            self is Single ==> r@.start == self->Single_0 as usize && r@.end == self->Single_0 as usize,
    {
        match self {
            EntryOpts::All => 0..=3,
            EntryOpts::Single(layer_idx) => (layer_idx as usize)..=(layer_idx as usize),
        }
    }
}

} // verus!
