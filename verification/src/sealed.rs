//! The marker that closes the storage traits to types of this crate.

use vstd::prelude::*;

verus! {

/// Implemented only for the types whose packed layout this crate defines.
pub trait Sealed {}

} // verus!
