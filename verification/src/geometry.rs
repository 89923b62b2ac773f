//! Shape checks of a cross section given as station/elevation points.
use vstd::prelude::*;

verus! {

/// Why a set of station/elevation points cannot describe a cross section.
#[derive(Clone, Copy, PartialEq, Eq, Debug)]
pub enum SectionError {
    /// Stations and elevations differ in number.
    LengthMismatch,
    /// Fewer than two points.
    TooFewPoints,
}

/// Checks the point counts of a cross section: as many elevations as stations, and at
/// least two points. A mismatch is reported before a shortage.
pub fn check_points(n_stations: usize, n_elevations: usize) -> (r: Result<(), SectionError>)
    ensures
        n_stations != n_elevations ==> r == Err::<(), SectionError>(SectionError::LengthMismatch),
        n_stations == n_elevations && n_stations < 2 ==> r == Err::<(), SectionError>(SectionError::TooFewPoints),
        n_stations == n_elevations && n_stations >= 2 ==> r == Ok::<(), SectionError>(()),
{
    if n_stations != n_elevations {
        Err(SectionError::LengthMismatch)
    } else if n_stations < 2 {
        Err(SectionError::TooFewPoints)
    } else {
        Ok(())
    }
}

} // verus!
