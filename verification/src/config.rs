//! Defaults of the run configuration that do not involve floating point.
use vstd::prelude::*;

verus! {

/// Default largest diagram order that the fixed-capacity layout must hold.
pub fn default_max_order_gpu() -> (r: usize)
    ensures
        r == 256,
{
    256
}

} // verus!
