//! The contract every storage engine of this crate offers: set a key,
//! read a key, remove a key.

use vstd::prelude::*;

use crate::errors::KVStoreError;
use crate::kv::KvStore;

verus! {

/// A pluggable storage engine.
pub trait KvsEngine: Sized {
    /// The engine's internal well-formedness, which every operation
    /// keeps.  An engine whose state is opaque may leave the default.
    open spec fn inv(&self) -> bool {
        true
    }

    /// Set the value of a string key to a string.
    fn set(&mut self, key: String, value: String) -> (r: Result<(), KVStoreError>)
        requires
            old(self).inv(),
        ensures
            final(self).inv(),
    ;

    /// Get the string value of a string key, or `None` when the key
    /// is absent.
    fn get(&self, key: String) -> (r: Result<Option<String>, KVStoreError>)
        requires
            self.inv(),
    ;

    /// Remove a string key; a key that is absent is an error.
    fn remove(&mut self, key: String) -> (r: Result<(), KVStoreError>)
        requires
            old(self).inv(),
        ensures
            final(self).inv(),
    ;
}

impl KvsEngine for KvStore {
    open spec fn inv(&self) -> bool {
        self.wf()
    }

    fn set(&mut self, key: String, value: String) -> (r: Result<(), KVStoreError>) {
        KvStore::set(self, key, value)
    }

    fn get(&self, key: String) -> (r: Result<Option<String>, KVStoreError>) {
        KvStore::get(self, key)
    }

    fn remove(&mut self, key: String) -> (r: Result<(), KVStoreError>) {
        KvStore::remove(self, key)
    }
}

} // verus!
