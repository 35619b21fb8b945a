//! Witness complex construction for landmark-based topological data analysis.
//!
//! Given landmarks selected from a point cloud, the remaining points act as
//! witnesses that vote for simplices spanned by their nearest landmarks.
//!
//! Coordinates and distances are floating-point values, which this library
//! never handles itself: a distance reaches it as an order key (see
//! [`order`]), an integer that orders distances exactly as the floats do.
pub mod order;
pub mod landmarks;
pub mod lcg_period;
pub mod witness;
pub mod complex;

pub use complex::WitnessComplex;
pub use landmarks::LandmarkSelector;
pub use order::UNDEFINED_DIST;
pub use witness::StrongWitness;
pub use witness::WeakWitness;
pub use witness::Witness;
