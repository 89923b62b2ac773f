//! Reach bookkeeping of the steady standard-step profile.
use vstd::prelude::*;

verus! {

/// The reach lengths of a profile request do not match its sections.
#[derive(Clone, Copy, PartialEq, Eq, Debug)]
pub struct ReachLengthError {
    /// One fewer than the number of sections.
    pub expected: usize,
    /// The number of reach lengths given.
    pub got: usize,
}

/// Checks that a profile over `n_sections` sections has one reach length between each
/// pair of neighbouring sections. Fewer than two sections need no reach length, so any
/// number is accepted there.
pub fn check_reach_lengths(n_sections: usize, n_reach: usize) -> (r: Result<(), ReachLengthError>)
    ensures
        r is Err <==> (n_sections >= 2 && n_reach != n_sections - 1),
        r is Err ==> r == Err::<(), ReachLengthError>(
            ReachLengthError { expected: (n_sections - 1) as usize, got: n_reach },
        ),
{
    if n_sections >= 2 && n_reach != n_sections - 1 {
        Err(ReachLengthError { expected: n_sections - 1, got: n_reach })
    } else {
        Ok(())
    }
}

/// Length of reach `i` (between sections `i` and `i + 1`); a reach for which no length
/// was given counts as `missing`.
pub fn reach_length_at<T: Copy>(lengths: &[T], i: usize, missing: T) -> (r: T)
    ensures
        i < lengths@.len() ==> r == lengths@[i as int],
        i >= lengths@.len() ==> r == missing,
{
    if i < lengths.len() {
        lengths[i]
    } else {
        missing
    }
}

} // verus!
