//! Where the policies keep the records that they lay out inside the region: a
//! record is found again under the address at which it was written.

use vstd::prelude::*;
use std::collections::HashMap;

verus! {

broadcast use vstd::std_specs::hash::group_hash_axioms;

/// Records of type `T`, each under the address it was written at.
pub struct Store<T> {
    cells: HashMap<usize, T>,
}

impl<T> View for Store<T> {
    type V = Map<usize, T>;

    closed spec fn view(&self) -> Map<usize, T> {
        self.cells@
    }
}

impl<T: Copy> Store<T> {
    /// A store with no record in it.
    pub fn new() -> (s: Self)
        ensures
            s@ == Map::<usize, T>::empty(),
    {
        Store { cells: HashMap::new() }
    }

    /// The record at `addr`, if one was written there and not erased since.
    pub fn read(&self, addr: usize) -> (r: Option<T>)
        ensures
            r == if self@.contains_key(addr) {
                Some(self@[addr])
            } else {
                None::<T>
            },
    {
        match self.cells.get(&addr) {
            Some(v) => Some(*v),
            None => None,
        }
    }

    /// Puts `value` at `addr`, over whatever was there.
    pub fn write(&mut self, addr: usize, value: T)
        ensures
            final(self)@ == old(self)@.insert(addr, value),
    {
        self.cells.insert(addr, value);
    }

    /// Forgets the record at `addr`.
    pub fn erase(&mut self, addr: usize)
        ensures
            final(self)@ == old(self)@.remove(addr),
    {
        self.cells.remove(&addr);
    }

    /// Forgets every record.
    pub fn clear(&mut self)
        ensures
            final(self)@ == Map::<usize, T>::empty(),
    {
        self.cells.clear();
    }
}

} // verus!
