//! Defaults of the HTTP daemon's requests. The daemon itself runs outside the library.

use vstd::prelude::*;

verus! {

/// How many elements `/dom/index` indexes unless asked otherwise.
pub fn default_max_elements() -> (r: usize)
    ensures
        r == 5000,
{
    5000
}

} // verus!
