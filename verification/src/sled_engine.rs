//! The alternate engine: the same three-operation contract served by
//! an embedded ordered-key store.  The embedded store owns its own
//! files and its own buffering; its answers are opaque to the
//! contracts here, so each operation fixes what it decides from the
//! store's answer — through `sled_value_to_result` and
//! `sled_removed_to_result` — and which errors it can report.  A
//! removal flushes before it reports success, so that a reported
//! removal survives a crash.

use vstd::prelude::*;

use crate::codec::string_from_utf8;
use crate::engine::KvsEngine;
use crate::errors::KVStoreError;

verus! {

#[verifier::external_type_specification]
#[verifier::external_body]
pub struct ExDb(sled::Db);

/// Relies on `sled::open`: opens or creates the embedded store's
/// files under the given directory.
#[verifier::external_body]
fn sled_open(path: &String) -> (r: Result<sled::Db, String>) {
    sled::open(path.as_str()).map_err(|e| format!("{}", e))
}

/// Relies on `sled::Tree::insert`: binds the key to the value bytes.
#[verifier::external_body]
fn sled_insert(db: &sled::Db, key: &String, value: &String) -> (r: Result<(), String>) {
    match db.insert(key.as_str(), value.as_str().as_bytes().to_vec()) {
        Ok(_) => Ok(()),
        Err(e) => Err(format!("{}", e)),
    }
}

/// Relies on `sled::Tree::get`: returns the bytes the key is bound
/// to, if any.
#[verifier::external_body]
fn sled_get(db: &sled::Db, key: &String) -> (r: Result<Option<Vec<u8>>, String>) {
    match db.get(key.as_str()) {
        Ok(v) => Ok(v.map(|ivec| ivec.to_vec())),
        Err(e) => Err(format!("{}", e)),
    }
}

/// Relies on `sled::Tree::remove`: unbinds the key and returns the
/// bytes it was bound to, if any.
#[verifier::external_body]
fn sled_remove(db: &sled::Db, key: &String) -> (r: Result<Option<Vec<u8>>, String>) {
    match db.remove(key.as_str()) {
        Ok(v) => Ok(v.map(|ivec| ivec.to_vec())),
        Err(e) => Err(format!("{}", e)),
    }
}

/// Relies on `sled::Tree::flush`: forces pending writes to disk.
#[verifier::external_body]
fn sled_flush(db: &sled::Db) -> (r: Result<(), String>) {
    match db.flush() {
        Ok(_) => Ok(()),
        Err(e) => Err(format!("{}", e)),
    }
}

/// Decides a read's outcome from whatever bytes the embedded store
/// handed back: an absent key reads as absent, UTF-8 bytes decode to
/// the stored string, and anything else is a `Utf8Error`.
pub fn sled_value_to_result(v: Option<Vec<u8>>) -> (r: Result<Option<String>, KVStoreError>)
    ensures
        v is None ==> r == Ok::<Option<String>, KVStoreError>(None::<String>),
        v matches Some(bytes) ==> (if vstd::utf8::valid_utf8(bytes@) {
            (r matches Ok(o) && (o matches Some(s) && s@ == vstd::utf8::decode_utf8(bytes@)))
        } else {
            (r matches Err(KVStoreError::Utf8Error))
        }),
{
    match v {
        None => Ok(None),
        Some(bytes) => match string_from_utf8(bytes) {
            Some(s) => Ok(Some(s)),
            None => Err(KVStoreError::Utf8Error),
        },
    }
}

/// Decides a removal's outcome from whatever the embedded store
/// handed back for the key: nothing there is the `KeyNotFound`
/// error; something there means the key was removed.
pub fn sled_removed_to_result(prev: Option<Vec<u8>>) -> (r: Result<(), KVStoreError>)
    ensures
        prev is None ==> r matches Err(KVStoreError::KeyNotFound),
        prev is Some ==> r is Ok,
{
    match prev {
        None => Err(KVStoreError::KeyNotFound),
        Some(_bytes) => Ok(()),
    }
}

/// A key/value store served by the embedded ordered-key store.
pub struct SledKvsEngine {
    inner: sled::Db,
}

impl SledKvsEngine {
    /// Opens the engine over the embedded store's directory.  A
    /// failure can only be the embedded store's own.
    pub fn open(path: String) -> (r: Result<SledKvsEngine, KVStoreError>)
        ensures
            r matches Ok(e) ==> e.inv(),
            r matches Err(e) ==> e is Sled,
    {
        match sled_open(&path) {
            Ok(db) => Ok(SledKvsEngine { inner: db }),
            Err(msg) => Err(KVStoreError::Sled(msg)),
        }
    }

    /// Binds the key to the value.  The embedded store may defer the
    /// write to its own flushing; a failure can only be the embedded
    /// store's own.
    pub fn set(&mut self, key: String, value: String) -> (r: Result<(), KVStoreError>)
        ensures
            r matches Err(e) ==> e is Sled,
    {
        match sled_insert(&self.inner, &key, &value) {
            Ok(()) => Ok(()),
            Err(msg) => Err(KVStoreError::Sled(msg)),
        }
    }

    /// Reads the key: `sled_value_to_result` fixes the outcome for
    /// every answer of the embedded store, so a failure is either
    /// `Utf8Error` for non-UTF-8 stored bytes or the embedded store's
    /// own.
    pub fn get(&self, key: String) -> (r: Result<Option<String>, KVStoreError>)
        ensures
            r matches Err(e) ==> (e is Utf8Error || e is Sled),
    {
        match sled_get(&self.inner, &key) {
            Ok(v) => sled_value_to_result(v),
            Err(msg) => Err(KVStoreError::Sled(msg)),
        }
    }

    /// Unbinds the key: `sled_removed_to_result` fixes the outcome
    /// for every answer of the embedded store, so a failure is either
    /// `KeyNotFound` for an absent key or the embedded store's own.
    /// A removal that went through is flushed before it is reported,
    /// so a reported removal survives a crash.
    pub fn remove(&mut self, key: String) -> (r: Result<(), KVStoreError>)
        ensures
            r matches Err(e) ==> (e is KeyNotFound || e is Sled),
    {
        match sled_remove(&self.inner, &key) {
            Ok(prev) => match sled_removed_to_result(prev) {
                Ok(()) => match sled_flush(&self.inner) {
                    Ok(()) => Ok(()),
                    Err(msg) => Err(KVStoreError::Sled(msg)),
                },
                Err(e) => Err(e),
            },
            Err(msg) => Err(KVStoreError::Sled(msg)),
        }
    }
}

impl KvsEngine for SledKvsEngine {
    open spec fn inv(&self) -> bool {
        true
    }

    fn set(&mut self, key: String, value: String) -> (r: Result<(), KVStoreError>) {
        SledKvsEngine::set(self, key, value)
    }

    fn get(&self, key: String) -> (r: Result<Option<String>, KVStoreError>) {
        SledKvsEngine::get(self, key)
    }

    fn remove(&mut self, key: String) -> (r: Result<(), KVStoreError>) {
        SledKvsEngine::remove(self, key)
    }
}

} // verus!
