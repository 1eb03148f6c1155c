//! The sentinel index used where no element is selected.

use vstd::prelude::*;

verus! {

/// Marks the absence of a link or node index; no real index reaches it.
pub const EMPTY_INDEX: usize = usize::MAX;

} // verus!
