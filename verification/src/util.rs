//! Small numeric helpers.

use vstd::prelude::*;

use crate::num::{dec_is_zero, Decimal};

verus! {

/// Whether a value is zero up to `0.00001`: its absolute value is below it.
pub fn is_zero(n: Decimal) -> (r: bool)
    ensures
        r == dec_is_zero(n),
{
    n.is_zero()
}

} // verus!
