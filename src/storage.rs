//! A generic key-value storage capability, for backends kept outside the
//! ledger.

use vstd::prelude::*;

verus! {

#[verifier::external_type_specification]
#[verifier::external_body]
pub struct ExIoError(std::io::Error);

#[verifier::external_type_specification]
#[verifier::external_body]
pub struct ExEncodeError(bincode::error::EncodeError);

#[verifier::external_type_specification]
#[verifier::external_body]
pub struct ExDecodeError(bincode::error::DecodeError);

/// Why a storage backend failed.
#[derive(Debug)]
pub enum Error {
    /// The backend's input or output failed.
    IoError(std::io::Error),
    /// A value could not be encoded.
    EncodeError(bincode::error::EncodeError),
    /// Stored bytes could not be decoded.
    DecodeError(bincode::error::DecodeError),
}

/// An ordered key-value store that a backend provides.
pub trait Storage<K, V> {
    /// Stores `value` under `key`, replacing what was there.
    fn put(&self, key: K, value: V) -> Result<(), Error>;

    /// The value stored under `key`.
    fn get(&self, key: &K) -> Option<V>;

    /// Removes what is stored under `key`; whether anything was.
    fn delete(&self, key: &K) -> bool;
}

} // verus!
