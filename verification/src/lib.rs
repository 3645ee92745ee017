//! Statistical downscaling and bias correction of climate variables: the
//! calendar and forcing-axis logic, option types and the seeded generator.
use vstd::prelude::*;

pub mod analog;
pub mod calendar;
pub mod csv_text;
pub mod date_text;
pub mod error;
pub mod forcing;
pub mod grid;
pub mod mbcn;
pub mod pet;
pub mod qm;
pub mod series;

pub use error::DownscaleError;
pub use forcing::{ForcingSeries, ForcingSet, Variable};
pub use qm::{Kind, NodePlacement};

verus! {

} // verus!
