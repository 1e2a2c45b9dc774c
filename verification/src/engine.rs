//! The capability surface a storage engine offers to the server.

use vstd::prelude::*;

use crate::errors::KvsError;

verus! {

/// A pluggable storage engine: point write, point lookup, point delete,
/// each durable before it returns success.
pub trait KvsEngine: Sized {
    /// The engine's internal invariant.
    spec fn inv(&self) -> bool;

    /// The abstract contents: each key bound to its current value.
    spec fn model(&self) -> Map<Seq<char>, Seq<char>>;

    /// When a write may fail.  For the native engine this is the exhausted
    /// generation counter alone; a failed write leaves the contents as they
    /// were.
    spec fn set_may_fail(&self, key: Seq<char>, value: Seq<char>) -> bool;

    /// When a lookup may fail.  The native engine's lookups never do.
    spec fn get_may_fail(&self, key: Seq<char>) -> bool;

    /// When a delete may fail beyond the key being absent.  The native
    /// engine's deletes never do.
    spec fn remove_may_fail(&self, key: Seq<char>) -> bool;

    /// Bind `key` to `value`, overwriting any previous binding.
    fn set(&mut self, key: String, value: String) -> (r: Result<(), KvsError>)
        requires
            old(self).inv(),
        ensures
            final(self).inv(),
            r is Ok ==> final(self).model() == old(self).model().insert(key@, value@),
            r is Err ==> old(self).set_may_fail(key@, value@) && final(self).model() == old(
                self,
            ).model(),
    ;

    /// Look `key` up; an absent key yields `Ok(None)`.
    fn get(&mut self, key: String) -> (r: Result<Option<String>, KvsError>)
        requires
            old(self).inv(),
        ensures
            final(self).inv(),
            final(self).model() == old(self).model(),
            match r {
                Ok(Some(v)) => old(self).model().contains_key(key@) && v@ == old(self).model()[
                    key@
                ],
                Ok(None) => !old(self).model().contains_key(key@),
                Err(_) => old(self).get_may_fail(key@),
            },
    ;

    /// Delete `key`; a key that is not present is `KeyNotFound`.
    fn remove(&mut self, key: String) -> (r: Result<(), KvsError>)
        requires
            old(self).inv(),
        ensures
            final(self).inv(),
            r is Ok ==> old(self).model().contains_key(key@) && final(self).model() == old(
                self,
            ).model().remove(key@),
            r is Err ==> (old(self).remove_may_fail(key@) || !old(self).model().contains_key(
                key@,
            )) && final(self).model() == old(self).model(),
    ;
}

impl KvsEngine for crate::store::KvStore {
    open spec fn inv(&self) -> bool {
        self.wf()
    }

    open spec fn model(&self) -> Map<Seq<char>, Seq<char>> {
        self.view()
    }

    open spec fn set_may_fail(&self, key: Seq<char>, value: Seq<char>) -> bool {
        self.set_exhausted(key)
    }

    open spec fn get_may_fail(&self, key: Seq<char>) -> bool {
        false
    }

    open spec fn remove_may_fail(&self, key: Seq<char>) -> bool {
        false
    }

    fn set(&mut self, key: String, value: String) -> (r: Result<(), KvsError>) {
        crate::store::KvStore::set(self, key, value)
    }

    fn get(&mut self, key: String) -> (r: Result<Option<String>, KvsError>) {
        crate::store::KvStore::get(self, key)
    }

    fn remove(&mut self, key: String) -> (r: Result<(), KvsError>) {
        crate::store::KvStore::remove(self, key)
    }
}

} // verus!
