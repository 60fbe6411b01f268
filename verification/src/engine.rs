//! The shared engine contract: the operation set both storage engines
//! satisfy, so that identical workloads can be driven against either and
//! compared.

use vstd::prelude::*;
use crate::btree::BTree;
use crate::lsm::LSMTree;

verus! {

/// The operations a storage engine offers.  `inv` is the engine's own
/// invariant: every operation requires and preserves it.  The exact result
/// of each operation is stated on the concrete engines, whose contracts
/// refine this one.
pub trait StorageEngine: Sized {
    spec fn inv(&self) -> bool;

    /// The label the engine reports for itself.
    spec fn spec_name(&self) -> Seq<char>;

    fn insert(&mut self, key: u64, value: u64)
        requires
            old(self).inv(),
        ensures
            final(self).inv(),
    ;

    fn search(&self, key: &u64) -> Option<u64>
        requires
            self.inv(),
    ;

    fn delete(&mut self, key: u64)
        requires
            old(self).inv(),
        ensures
            final(self).inv(),
    ;

    fn name(&self) -> (r: &'static str)
        ensures
            r@ == self.spec_name(),
    ;

    /// Clears engine-specific transient state between workload runs.
    /// Neither engine keeps any, so this is a complete no-op.
    fn cleanup(&mut self)
        requires
            old(self).inv(),
        ensures
            *final(self) == *old(self),
    ;
}

impl StorageEngine for BTree {
    open spec fn inv(&self) -> bool {
        self.well_formed()
    }

    open spec fn spec_name(&self) -> Seq<char> {
        "B-Tree"@
    }

    fn insert(&mut self, key: u64, value: u64) {
        BTree::insert(self, key, value);
    }

    fn search(&self, key: &u64) -> Option<u64> {
        BTree::search(self, key)
    }

    fn delete(&mut self, key: u64) {
        BTree::delete(self, key);
    }

    fn name(&self) -> &'static str {
        "B-Tree"
    }

    fn cleanup(&mut self) {
    }
}

impl StorageEngine for LSMTree {
    open spec fn inv(&self) -> bool {
        self.well_formed()
    }

    open spec fn spec_name(&self) -> Seq<char> {
        "LSM-Tree"@
    }

    fn insert(&mut self, key: u64, value: u64) {
        LSMTree::insert(self, key, value);
    }

    fn search(&self, key: &u64) -> Option<u64> {
        LSMTree::search(self, key)
    }

    fn delete(&mut self, key: u64) {
        LSMTree::delete(self, key);
    }

    fn name(&self) -> &'static str {
        "LSM-Tree"
    }

    fn cleanup(&mut self) {
    }
}

} // verus!
