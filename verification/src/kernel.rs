//! Kernel types whose state the library holds.
use vstd::prelude::*;

verus! {

/// The linear kernel, `k(x, y) = <x, y>`. It carries no parameter.
pub struct Linear;

} // verus!
