//! Verified core of a quartic force field pipeline: symmetry classification of
//! the internal coordinates, the symmetry checks that prune Taylor terms, the
//! layout of the regression problem, the ordering contract of the energy
//! batch, and the stage machine that drives a run.

pub mod irrep;
pub mod checks;
pub mod fit;
pub mod batch;
pub mod pipeline;
