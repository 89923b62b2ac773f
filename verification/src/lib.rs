//! Index, layout and request-checking logic of a 1D/2D open-channel hydraulics engine:
//! cross-section point checks, steady-profile reach bookkeeping, the state layout and
//! downstream boundary of the unsteady router, and the padded grid, ghost cells and
//! cell faces of the 2D shallow-water model.
pub mod geometry;
pub mod steady;
pub mod swe2d;
pub mod unsteady;
