//! Groups countries by the similarity of their per-capita CO2 emission
//! trends.
//!
//! Emission values are carried as fixed-point numbers: an `i64` holding
//! millionths of a unit (`SCALE` = one unit). The pipeline aligns each
//! country's yearly samples onto the union of all observed years, fills
//! gaps with the country mean, smooths with a centered moving average,
//! scales onto `[0, SCALE]`, and then connects countries whose cosine
//! similarity exceeds a threshold. Connected components of that graph
//! are the reported clusters.

pub mod analysis;
pub mod country;
pub mod graph;
pub mod num;
pub mod similarity;
pub mod utils;

pub use country::CountryData;
pub use country::SCALE;
