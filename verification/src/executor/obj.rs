//! Host objects.
use vstd::prelude::*;

verus! {

/// An object of the host, such as a value that an asset function returned. It is
/// known by its number; what it holds is the host's concern.
#[derive(Clone, Copy, PartialEq, Eq, Structural, Debug)]
pub struct Obj(pub u64);

/// The number of the host's object for no value.
pub const NONE_ID: u64 = 0;

} // verus!
