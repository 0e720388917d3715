//! Growth of a two-dimensional dielectric-breakdown ("lightning") figure on the
//! integer lattice: the charges and candidate sites of the discharge, the rule
//! that picks which candidate is promoted next, the distances from which site
//! potentials are summed, and a grayscale debug picture of the result.
use vstd::prelude::*;

pub mod grid;
pub mod selection;
pub mod growth;
pub mod raster;
pub mod text;
