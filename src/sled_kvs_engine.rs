//! An engine over the sled embedded database.
use crate::engine::KvsEngine;
use crate::error::KvsError;
use vstd::prelude::*;
use vstd::utf8::{decode_utf8, valid_utf8};

verus! {

#[verifier::external_type_specification]
#[verifier::external_body]
pub struct ExSledDb(sled::Db);

/// Relies on sled::Db's `Clone`: another handle to the same database.
pub assume_specification[ <sled::Db as std::clone::Clone>::clone ](db: &sled::Db) -> sled::Db;

/// The engine that keeps its pairs in a sled database.
#[derive(Clone)]
pub struct SledKvsEngine {
    /// The database.
    pub db: sled::Db,
}

/// Relies on sled::Tree::insert, through `Db`'s deref: stores the pair,
/// giving back the earlier value, which is not needed here.
#[verifier::external_body]
fn sled_insert(db: &sled::Db, key: &String, value: &String) -> Result<(), sled::Error> {
    db.insert(key.as_bytes(), value.as_bytes()).map(|_| ())
}

/// Relies on sled::Tree::flush: writes dirty buffers out.
#[verifier::external_body]
fn sled_flush(db: &sled::Db) -> Result<(), sled::Error> {
    db.flush().map(|_| ())
}

/// Relies on sled::Tree::get: the bytes stored for the key, if any.
#[verifier::external_body]
fn sled_get(db: &sled::Db, key: &String) -> Result<Option<Vec<u8>>, sled::Error> {
    db.get(key.as_bytes()).map(|v| v.map(|bytes| bytes.to_vec()))
}

/// Relies on sled::Tree::remove: whether the key held a value before.
#[verifier::external_body]
fn sled_remove(db: &sled::Db, key: &String) -> Result<bool, sled::Error> {
    db.remove(key.as_bytes()).map(|old| old.is_some())
}

/// Relies on String::from_utf8: the text of the bytes where they are UTF-8.
#[verifier::external_body]
fn text_of_utf8(bytes: Vec<u8>) -> (r: Result<String, std::string::FromUtf8Error>)
    ensures
        r is Ok <==> valid_utf8(bytes@),
        r matches Ok(s) ==> s@ == decode_utf8(bytes@),
{
    String::from_utf8(bytes)
}

/// The value of a lookup whose stored bytes are `found`: their text, or
/// `FromUtf8` where they are not UTF-8.
pub fn stored_text(found: Option<Vec<u8>>) -> (r: Result<Option<String>, KvsError>)
    ensures
        match found {
            None => r == Ok::<Option<String>, KvsError>(None),
            Some(b) => if valid_utf8(b@) {
                r matches Ok(Some(s)) && s@ == decode_utf8(b@)
            } else {
                r matches Err(KvsError::FromUtf8(_))
            },
        },
{
    match found {
        None => Ok(None),
        Some(bytes) => match text_of_utf8(bytes) {
            Ok(s) => Ok(Some(s)),
            Err(e) => Err(KvsError::FromUtf8(e)),
        },
    }
}

/// The outcome of a remove, from whether the key held a value.
pub fn remove_outcome(existed: bool) -> (r: Result<(), KvsError>)
    ensures
        existed <==> r is Ok,
        !existed ==> r matches Err(KvsError::KeyNotFound),
{
    if existed {
        Ok(())
    } else {
        Err(KvsError::KeyNotFound)
    }
}

impl SledKvsEngine {
    /// Stores the pair and flushes; fails only with a sled error.
    pub fn set_pair(&self, key: String, value: String) -> (r: Result<(), KvsError>)
        ensures
            r matches Err(e) ==> e is Sled,
    {
        if let Err(e) = sled_insert(&self.db, &key, &value) {
            return Err(KvsError::Sled(e));
        }
        match sled_flush(&self.db) {
            Ok(()) => Ok(()),
            Err(e) => Err(KvsError::Sled(e)),
        }
    }

    /// The value stored for the key, if any; fails with a sled error, or
    /// with `FromUtf8` where the stored bytes are not text.
    pub fn get_value(&self, key: String) -> (r: Result<Option<String>, KvsError>)
        ensures
            r matches Err(e) ==> e is Sled || e is FromUtf8,
    {
        match sled_get(&self.db, &key) {
            Ok(found) => stored_text(found),
            Err(e) => Err(KvsError::Sled(e)),
        }
    }

    /// Removes the key and flushes; fails with `KeyNotFound` where the key
    /// held no value (and then flushes nothing), or with a sled error.
    pub fn remove_key(&self, key: String) -> (r: Result<(), KvsError>)
        ensures
            r matches Err(e) ==> e is Sled || e is KeyNotFound,
    {
        let existed = match sled_remove(&self.db, &key) {
            Ok(b) => b,
            Err(e) => return Err(KvsError::Sled(e)),
        };
        if let Err(e) = remove_outcome(existed) {
            return Err(e);
        }
        match sled_flush(&self.db) {
            Ok(()) => Ok(()),
            Err(e) => Err(KvsError::Sled(e)),
        }
    }
}

impl KvsEngine for SledKvsEngine {
    fn set(&self, key: String, value: String) -> Result<(), KvsError> {
        self.set_pair(key, value)
    }

    fn get(&self, key: String) -> Result<Option<String>, KvsError> {
        self.get_value(key)
    }

    fn remove(&self, key: String) -> Result<(), KvsError> {
        self.remove_key(key)
    }
}

} // verus!
