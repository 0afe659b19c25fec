//! What keeps the set of doors closed.

use vstd::prelude::*;

use crate::bench::publishable::{Admitted, Publishable};

verus! {

/// Implemented for the two doors a result can come through, and out of reach
/// for anything else.
pub trait Sealed {

}

impl Sealed for Publishable {

}

impl Sealed for Admitted {

}

} // verus!
