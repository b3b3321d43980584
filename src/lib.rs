//! Surgery of a signed permutation with transverse strands: counts the
//! components of the resulting multicurve and tells which are one-sided.

pub mod permutation;
pub mod transition;
pub mod orbits;
pub mod enumerate;
pub mod laws;
