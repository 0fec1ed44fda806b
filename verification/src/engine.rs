//! The engine interface a storage backend offers to the server: durable
//! `set`, point `get`, and `remove`, callable through shared handles.

use vstd::prelude::*;
use crate::errors::KvError;

verus! {

/// A shareable key-value storage engine.
///
/// Handles are cheaply cloneable; implementations serialize writers
/// internally and are implemented outside the verified core, around
/// [`crate::store::KvStore`].
pub trait KvEngine: Sized + Clone + Send + 'static {
    /// Makes `key` map to `value`, durably.
    fn set(&self, key: String, value: String) -> Result<(), KvError>;

    /// The value `key` maps to, or `None` when absent.
    fn get(&self, key: String) -> Result<Option<String>, KvError>;

    /// Removes `key`; fails with `KeyNotFound` when it is absent.
    fn remove(&self, key: String) -> Result<(), KvError>;
}

} // verus!
