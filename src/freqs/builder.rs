//! Counting the units of a text.
use vstd::prelude::*;

use super::{ones, tally, Frequency};
use crate::opts::CountUnit;
use crate::split::{split_units, units_of};

verus! {

/// A text whose units are yet to be counted; `by_unit` picks the unit and counts.
#[derive(Debug, Clone, PartialEq, Eq)]
pub struct FrequencyBuilder(pub String);

impl FrequencyBuilder {
    /// The table of how often each unit of `unit` occurs in the text.
    pub fn by_unit(self, unit: CountUnit) -> (r: Frequency)
        ensures
            r.wf(),
            r@ == tally(ones(units_of(self.0@, unit))),
    {
        let units = split_units(self.0.as_str(), unit);
        Frequency::from_units(units.as_slice())
    }
}

} // verus!
