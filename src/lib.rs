//! A fixed-block slab allocator for a key-value cache.
//!
//! A [`Slab`] owns one zero-initialised byte region split into equal blocks.
//! Each occupied block holds one record (TTL, key length, value length, key,
//! value); callers refer to records through copyable [`Handle`]s.
use vstd::prelude::*;

pub mod handle;
pub mod dump;
pub mod layout;
pub mod slab;

pub use handle::Handle;
pub use slab::Slab;

verus! {

} // verus!
