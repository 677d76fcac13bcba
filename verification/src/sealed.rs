//! The seal that closes the set of kinds.

use vstd::prelude::*;

verus! {

/// Implemented by the two kind markers only, so that no further kind can be added.
pub trait Sealed {

}

} // verus!
