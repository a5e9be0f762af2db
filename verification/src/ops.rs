use vstd::prelude::*;

verus! {

/// Sum of two counters, the combining function of a counting tree.
pub fn add_u64(a: &u64, b: &u64) -> (r: u64)
    requires
        *a + *b <= u64::MAX,
    ensures
        r == *a + *b,
{
    *a + *b
}

} // verus!
