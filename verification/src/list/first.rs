//! The free-list allocator that takes the first gap that has room.

use vstd::prelude::*;
use crate::list::FirstFit;

verus! {

/// A first-fit allocator.
pub type Alloq = crate::list::Alloq<FirstFit>;

} // verus!
