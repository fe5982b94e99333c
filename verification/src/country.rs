//! The cleaned emission trend vector of one country.

use vstd::prelude::*;

verus! {

/// Fixed-point scale: values are stored in millionths of a unit, so a
/// cleaned, normalized sample of `1.0` is stored as `SCALE`.
pub const SCALE: i64 = 1_000_000;

/// Largest raw sample magnitude the pipeline accepts, in fixed-point
/// millionths; keeps every scaled product inside an `i64`.
pub const VAL_LIMIT: i64 = 1_000_000_000_000;

/// Stores emission per capita values across years for a country, as
/// fixed-point millionths.
#[derive(Debug, Clone)]
pub struct CountryData {
    pub values: Vec<i64>,
}

impl CountryData {
    /// The mathematical content of the vector: its samples as integers.
    pub open spec fn view(self) -> Seq<int> {
        self.values@.map(|_i: int, v: i64| v as int)
    }
}

} // verus!
