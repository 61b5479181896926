//! Small helpers on optional inputs.

use vstd::prelude::*;

verus! {

/// Whether an input is absent or empty: in both cases there is nothing to compare.
pub fn is_none<T>(s: Option<&[T]>) -> (r: bool)
    ensures
        r == match s {
            Some(slice) => slice@.len() == 0,
            None => true,
        },
{
    match s {
        Some(slice) => slice.len() == 0,
        None => true,
    }
}

} // verus!
