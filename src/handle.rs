//! Handles: copyable references to slab blocks.
use vstd::prelude::*;

verus! {

/// A reference to one block of a slab, by the block's index.
///
/// A handle carries no ownership and is meaningful only for the slab that
/// issued it; two handles are equal when their indices are.
#[derive(Clone, Copy, Debug, PartialEq, Eq, Structural)]
pub struct Handle(pub usize);

} // verus!
