//! Size-directed composition of the strongest durable tail candidates.
use vstd::prelude::*;

use crate::dyadic::BigDyadic;
use crate::prefix::implementations::{batch_balanced, online_balanced, widening_u128};
use crate::prefix::{tail_fits, tail_spec, RankedPrefix};

verus! {

/// Compute the exact tail with the candidate selected for this prefix length.
pub fn compute(prefix: &RankedPrefix) -> (r: BigDyadic)
    requires
        tail_fits(prefix@),
    ensures
        r@ == tail_spec(prefix@),
{
    let len = prefix.len();
    if len <= 8 {
        batch_balanced::compute(prefix)
    } else if len <= 64 {
        online_balanced::compute(prefix)
    } else if len <= 256 {
        widening_u128::compute(prefix)
    } else if len <= 65_535 {
        online_balanced::compute(prefix)
    } else if len <= 131_071 {
        batch_balanced::compute(prefix)
    } else {
        online_balanced::compute(prefix)
    }
}

} // verus!
