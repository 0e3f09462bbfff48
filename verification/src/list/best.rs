//! The free-list allocator that takes the gap that is left with the least room.

use vstd::prelude::*;
use crate::list::BestFit;

verus! {

/// A best-fit allocator.
pub type Alloq = crate::list::Alloq<BestFit>;

} // verus!
