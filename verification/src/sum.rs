use vstd::prelude::*;

verus! {

/// A grade holding a small signed value.
pub struct Sum {
    value: i8,
}

} // verus!
