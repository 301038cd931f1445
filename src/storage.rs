//! The page store contract, its RAM implementation, and the errors of the
//! storage layer.
use vstd::prelude::*;

use std::collections::HashMap;

verus! {

broadcast use vstd::std_specs::hash::group_hash_axioms;

/// Errors that can occur during retrieval or storage of a value.
#[derive(Debug, Clone, Copy, PartialEq, Eq, Structural)]
pub enum StorageError {
    /// The key which should be retrieved could not be found.
    KeyNotFound,
    /// General I/O error of a backing store.
    IO,
    /// Error during a read operation, or a truncated encoded number.
    ReadError,
    /// Error during a write operation.
    WriteError,
}

impl StorageError {
    /// A description of the error.
    pub fn description(&self) -> (r: &'static str)
        ensures
            *self == StorageError::KeyNotFound ==> r@ == "Key was not found in storage!"@,
            *self == StorageError::IO ==> r@ == "An error occured during an IO-operation!"@,
            *self == StorageError::ReadError ==> r@ == "An error occured while trying to read from storage!"@,
            *self == StorageError::WriteError ==> r@ == "An error occured while trying to write to storage!"@,
    {
        match self {
            StorageError::KeyNotFound => "Key was not found in storage!",
            StorageError::IO => "An error occured during an IO-operation!",
            StorageError::ReadError => "An error occured while trying to read from storage!",
            StorageError::WriteError => "An error occured while trying to write to storage!",
        }
    }
}

/// A store of values by 64-bit id, such as the pages of an index.
pub trait Storage<T> {
    /// The stored values by id.
    spec fn stored(&self) -> Map<u64, T>;

    /// The value stored under `id`; fails with `KeyNotFound` for an id
    /// without a value.
    fn get(&self, id: u64) -> (r: Result<&T, StorageError>)
        ensures
            self.stored().contains_key(id) ==> r == Ok::<&T, StorageError>(&self.stored()[id]),
            !self.stored().contains_key(id) ==> r == Err::<&T, StorageError>(StorageError::KeyNotFound),
    ;

    /// Stores `data` under `id`, replacing any value there.
    fn store(&mut self, id: u64, data: T) -> (r: Result<(), StorageError>)
        ensures
            r is Ok ==> final(self).stored() == old(self).stored().insert(id, data),
            r is Err ==> final(self).stored() == old(self).stored(),
    ;
}

/// A store that keeps its values in memory.
pub struct RamStorage<T> {
    data: HashMap<u64, T>,
}

impl<T> RamStorage<T> {
    /// An empty store.
    pub fn new() -> (r: Self)
        ensures
            r.stored() == Map::<u64, T>::empty(),
    {
        RamStorage { data: HashMap::new() }
    }
}

impl<T> Storage<T> for RamStorage<T> {
    closed spec fn stored(&self) -> Map<u64, T> {
        self.data@
    }

    fn get(&self, id: u64) -> (r: Result<&T, StorageError>) {
        match self.data.get(&id) {
            Some(v) => Ok(v),
            None => Err(StorageError::KeyNotFound),
        }
    }

    fn store(&mut self, id: u64, data: T) -> (r: Result<(), StorageError>) {
        self.data.insert(id, data);
        Ok(())
    }
}

} // verus!
