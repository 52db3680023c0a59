//! The checks of the command line that integers can state.

use vstd::prelude::*;

verus! {

/// The largest capture side gamescope is asked for.
pub const MAX_CAPTURE_SIDE: u32 = 16384;

/// Whether a subsampled frame height is accepted: between 1 and 16384.
pub fn valid_sample_height(sample_height: u32) -> (ok: bool)
    ensures
        ok == (1 <= sample_height <= MAX_CAPTURE_SIDE),
{
    sample_height != 0 && sample_height <= MAX_CAPTURE_SIDE
}

} // verus!
