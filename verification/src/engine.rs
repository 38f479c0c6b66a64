//! What a storage engine offers: `set`, `get` and `remove` on string keys
//! and values, with the meaning of a map.

use crate::error::KvsError;
use vstd::prelude::*;

verus! {

/// A storage engine for string keys and values.
///
/// An engine answers as a map from keys to values does. A call that fails
/// leaves what the engine holds as it was.
pub trait KvsEngine {
    /// The engine is in a state in which it can be asked.
    spec fn valid(&self) -> bool;

    /// The keys that the engine holds, each with its value.
    spec fn contents(&self) -> Map<Seq<char>, Seq<char>>;

    /// Sets the value of a string key to a string. If the key is there
    /// already, its value is replaced.
    fn set(&mut self, key: String, value: String) -> (r: Result<(), KvsError>)
        requires
            old(self).valid(),
        ensures
            final(self).valid(),
            final(self).contents() == match r {
                Ok(_) => old(self).contents().insert(key@, value@),
                Err(_) => old(self).contents(),
            },
    ;

    /// Gets the string value of a given string key, or `None` where the key
    /// is not there.
    fn get(&mut self, key: String) -> (r: Result<Option<String>, KvsError>)
        requires
            old(self).valid(),
        ensures
            final(self).valid(),
            final(self).contents() == old(self).contents(),
            r matches Ok(found) ==> match found {
                Some(value) => old(self).contents().contains_key(key@) && old(self).contents()[key@]
                    == value@,
                None => !old(self).contents().contains_key(key@),
            },
    ;

    /// Removes a given key. Fails with `KeyNotFound` where the key is not
    /// there.
    fn remove(&mut self, key: String) -> (r: Result<(), KvsError>)
        requires
            old(self).valid(),
        ensures
            final(self).valid(),
            match r {
                Ok(_) => old(self).contents().contains_key(key@) && final(self).contents() == old(
                    self,
                ).contents().remove(key@),
                Err(e) => final(self).contents() == old(self).contents() && (e is KeyNotFound
                    <==> !old(self).contents().contains_key(key@)),
            },
    ;
}

} // verus!
