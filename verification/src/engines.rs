use vstd::prelude::*;

use crate::error::KvsError;

verus! {

/// The storage capability the server is parameterised over: shared handles
/// to one underlying store, with string keys and values. Implementations
/// supply their own concurrency discipline; handles are cheap to clone and
/// may cross threads. The trait makes no promises of its own — what each
/// engine guarantees is stated on the implementing type.
pub trait KvsEngine: Clone + Send + Sized + 'static {
    /// Look a key up; `None` if it is absent.
    fn get(&self, key: String) -> Result<Option<String>, KvsError>;

    /// Bind a key to a value, durably before returning.
    fn set(&self, key: String, value: String) -> Result<(), KvsError>;

    /// Remove a key; `KeyNotFound` if it is absent.
    fn remove(&self, key: String) -> Result<(), KvsError>;
}

// ============================================================================
// The embedded B-tree engine
// ============================================================================

#[verifier::external_type_specification]
#[verifier::external_body]
pub struct ExSledDb(sled::Db);

#[verifier::external_type_specification]
#[verifier::external_body]
pub struct ExSledError(sled::Error);

/// Relies on `sled::Db`'s derived `Clone`: another handle to the same
/// database. The handle is opaque here, so nothing is promised of it.
pub assume_specification[ <sled::Db as Clone>::clone ](db: &sled::Db) -> sled::Db;

/// Relies on `sled::Tree::get` (reached through `Db`'s deref): looks the key
/// up in the tree. The result depends on the tree's state on disk, so
/// nothing is promised of it.
#[verifier::external_body]
fn sled_get(db: &sled::Db, key: &str) -> (r: Result<Option<Vec<u8>>, sled::Error>)
{
    match db.get(key.as_bytes()) {
        Ok(Some(iv)) => Ok(Some(iv.as_ref().to_vec())),
        Ok(None) => Ok(None),
        Err(e) => Err(e),
    }
}

/// Relies on `sled::Tree::insert`: binds the key to the value in the tree.
/// Nothing is promised of the result.
#[verifier::external_body]
fn sled_insert(db: &sled::Db, key: &str, value: &str) -> (r: Result<(), sled::Error>)
{
    match db.insert(key.as_bytes(), value.as_bytes()) {
        Ok(_) => Ok(()),
        Err(e) => Err(e),
    }
}

/// Relies on `sled::Tree::remove`: unbinds the key, handing back whether a
/// previous value existed. Nothing is promised of the result.
#[verifier::external_body]
fn sled_remove(db: &sled::Db, key: &str) -> (r: Result<bool, sled::Error>)
{
    match db.remove(key.as_bytes()) {
        Ok(prev) => Ok(prev.is_some()),
        Err(e) => Err(e),
    }
}

/// Relies on `sled::Tree::flush`: forces pending writes to disk. Nothing is
/// promised of the result.
#[verifier::external_body]
fn sled_flush(db: &sled::Db) -> (r: Result<(), sled::Error>)
{
    match db.flush() {
        Ok(_) => Ok(()),
        Err(e) => Err(e),
    }
}

/// Relies on `sled::Error`'s `Display` implementation: renders the error to
/// text. Nothing is promised of the result.
#[verifier::external_body]
fn sled_error_text(e: &sled::Error) -> (r: String)
{
    format!("{}", e)
}

/// The alternate engine: a thin adapter over an embedded B-tree database.
/// What it returns depends on the database's disk state, so its operations
/// promise only what the adapter itself decides: which error kinds each can
/// produce (absent keys map to `KeyNotFound`, text decoding failures to
/// `Utf8Error`, database failures to their rendered text as `StringError`).
#[derive(Clone)]
pub struct SledKvsEngine {
    db: sled::Db,
}

impl SledKvsEngine {
    /// The wrapped database handle: every operation of this engine reads
    /// and writes through it.
    pub closed spec fn handle(&self) -> sled::Db {
        self.db
    }

    /// Wrap an open database handle.
    pub fn new(db: sled::Db) -> (r: SledKvsEngine)
        ensures
            r.handle() == db,
    {
        SledKvsEngine { db }
    }
}

/// Relies on `String::from_utf8`: decodes exactly the valid UTF-8 byte
/// sequences, to the string they encode.
#[verifier::external_body]
fn string_from_utf8(v: Vec<u8>) -> (r: Result<String, String>)
    ensures
        match r {
            Ok(s) => vstd::utf8::encode_utf8(s@) == v@,
            Err(_) => !vstd::utf8::valid_utf8(v@),
        },
{
    match String::from_utf8(v) {
        Ok(s) => Ok(s),
        Err(e) => Err(format!("{}", e)),
    }
}

impl KvsEngine for SledKvsEngine {
    fn get(&self, key: String) -> (r: Result<Option<String>, KvsError>)
        ensures
            r matches Err(e) ==> (e is Utf8Error || e is StringError),
    {
        match sled_get(&self.db, key.as_str()) {
            Ok(Some(bytes)) => match string_from_utf8(bytes) {
                Ok(s) => Ok(Some(s)),
                Err(m) => Err(KvsError::Utf8Error(m)),
            },
            Ok(None) => Ok(None),
            Err(e) => Err(KvsError::StringError(sled_error_text(&e))),
        }
    }

    fn set(&self, key: String, value: String) -> (r: Result<(), KvsError>)
        ensures
            r matches Err(e) ==> e is StringError,
    {
        match sled_insert(&self.db, key.as_str(), value.as_str()) {
            Ok(()) => match sled_flush(&self.db) {
                Ok(()) => Ok(()),
                Err(e) => Err(KvsError::StringError(sled_error_text(&e))),
            },
            Err(e) => Err(KvsError::StringError(sled_error_text(&e))),
        }
    }

    fn remove(&self, key: String) -> (r: Result<(), KvsError>)
        ensures
            r matches Err(e) ==> (e is KeyNotFound || e is StringError),
    {
        match sled_remove(&self.db, key.as_str()) {
            Ok(true) => match sled_flush(&self.db) {
                Ok(()) => Ok(()),
                Err(e) => Err(KvsError::StringError(sled_error_text(&e))),
            },
            Ok(false) => Err(KvsError::KeyNotFound),
            Err(e) => Err(KvsError::StringError(sled_error_text(&e))),
        }
    }
}

} // verus!
