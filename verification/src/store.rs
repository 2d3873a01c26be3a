//! The ordered key-value store that the collections are built on.
//!
//! The store is a finite map from byte strings to byte strings whose keys are
//! visited in bytewise order. `KvStore` states what the collections need of
//! it: point reads and writes, the nearest key on either side of a bound, and
//! a request to compact a range, which changes nothing that can be read.

use vstd::prelude::*;
use crate::lex::{lex_le, lex_lt};

verus! {

/// A failure reported by the store.
#[derive(Debug)]
pub struct StoreError {
    pub message: String,
}

/// A key with its value.
pub type Record = (Seq<u8>, Seq<u8>);

/// What a store holds.
pub type Contents = Map<Seq<u8>, Seq<u8>>;

/// The value under `key`, if there is one.
pub open spec fn lookup(m: Contents, key: Seq<u8>) -> Option<Seq<u8>> {
    if m.contains_key(key) {
        Some(m[key])
    } else {
        None
    }
}

/// `r` is the record with the least key that is not before `from`.
pub open spec fn is_first_at_or_after(m: Contents, from: Seq<u8>, r: Option<Record>) -> bool {
    match r {
        Some((k, v)) => {
            &&& m.contains_key(k)
            &&& m[k] == v
            &&& lex_le(from, k)
            &&& forall|x: Seq<u8>| #[trigger] m.contains_key(x) && lex_le(from, x) ==> lex_le(k, x)
        },
        None => forall|x: Seq<u8>| #[trigger] m.contains_key(x) ==> !lex_le(from, x),
    }
}

/// `r` is the record with the least key that is after `from`.
pub open spec fn is_first_after(m: Contents, from: Seq<u8>, r: Option<Record>) -> bool {
    match r {
        Some((k, v)) => {
            &&& m.contains_key(k)
            &&& m[k] == v
            &&& lex_lt(from, k)
            &&& forall|x: Seq<u8>| #[trigger] m.contains_key(x) && lex_lt(from, x) ==> lex_le(k, x)
        },
        None => forall|x: Seq<u8>| #[trigger] m.contains_key(x) ==> !lex_lt(from, x),
    }
}

/// `r` is the record with the greatest key that is before `bound`.
pub open spec fn is_last_before(m: Contents, bound: Seq<u8>, r: Option<Record>) -> bool {
    match r {
        Some((k, v)) => {
            &&& m.contains_key(k)
            &&& m[k] == v
            &&& lex_lt(k, bound)
            &&& forall|x: Seq<u8>| #[trigger] m.contains_key(x) && lex_lt(x, bound) ==> lex_le(x, k)
        },
        None => forall|x: Seq<u8>| #[trigger] m.contains_key(x) ==> !lex_lt(x, bound),
    }
}

/// The mathematical content of a record handed out by a store.
pub open spec fn record_view(r: Option<(Vec<u8>, Vec<u8>)>) -> Option<Record> {
    match r {
        Some((k, v)) => Some((k@, v@)),
        None => None,
    }
}

/// The mathematical content of a value handed out by a store.
pub open spec fn value_view(r: Option<Vec<u8>>) -> Option<Seq<u8>> {
    match r {
        Some(v) => Some(v@),
        None => None,
    }
}

/// An ordered store of byte strings.
///
/// `contents` is what the store holds, finitely many records; `compactions`
/// the ranges it was asked to compact, in order; `reliable` says that no
/// operation fails. A verified store defines the three itself, and what is
/// proved of a database is proved for every such store.
///
/// The three have bodies here for one reason: a store kept outside the
/// verifier, such as one on disk, cannot write spec functions and takes
/// these over. The bodies say nothing true of such a store. Of it, the
/// contracts below are taken on trust, with `contents` read as what the
/// store really holds.
pub trait KvStore {
    open spec fn contents(&self) -> Contents {
        Map::empty()
    }

    open spec fn compactions(&self) -> Seq<Record> {
        Seq::empty()
    }

    open spec fn reliable(&self) -> bool {
        false
    }

    /// The value under `key`.
    fn get(&self, key: &[u8]) -> (r: Result<Option<Vec<u8>>, StoreError>)
        ensures
            self.reliable() ==> r is Ok,
            r matches Ok(v) ==> value_view(v) == lookup(self.contents(), key@),
    ;

    /// Stores `value` under `key`, replacing what was there.
    fn put(&mut self, key: &[u8], value: &[u8]) -> (r: Result<(), StoreError>)
        ensures
            final(self).reliable() == old(self).reliable(),
            final(self).compactions() == old(self).compactions(),
            old(self).reliable() ==> r is Ok,
            r is Ok ==> final(self).contents() == old(self).contents().insert(key@, value@),
            r is Err ==> final(self).contents() == old(self).contents(),
    ;

    /// Removes `key` and its value, if present.
    fn delete(&mut self, key: &[u8]) -> (r: Result<(), StoreError>)
        ensures
            final(self).reliable() == old(self).reliable(),
            final(self).compactions() == old(self).compactions(),
            old(self).reliable() ==> r is Ok,
            r is Ok ==> final(self).contents() == old(self).contents().remove(key@),
            r is Err ==> final(self).contents() == old(self).contents(),
    ;

    /// The record with the least key at or after `from`.
    fn first_at_or_after(&self, from: &[u8]) -> (r: Result<Option<(Vec<u8>, Vec<u8>)>, StoreError>)
        ensures
            self.contents().dom().finite(),
            self.reliable() ==> r is Ok,
            r matches Ok(e) ==> is_first_at_or_after(self.contents(), from@, record_view(e)),
    ;

    /// The record with the least key after `from`.
    fn first_after(&self, from: &[u8]) -> (r: Result<Option<(Vec<u8>, Vec<u8>)>, StoreError>)
        ensures
            self.contents().dom().finite(),
            self.reliable() ==> r is Ok,
            r matches Ok(e) ==> is_first_after(self.contents(), from@, record_view(e)),
    ;

    /// The record with the greatest key before `bound`.
    fn last_before(&self, bound: &[u8]) -> (r: Result<Option<(Vec<u8>, Vec<u8>)>, StoreError>)
        ensures
            self.contents().dom().finite(),
            self.reliable() ==> r is Ok,
            r matches Ok(e) ==> is_last_before(self.contents(), bound@, record_view(e)),
    ;

    /// Asks the store to reclaim the space of deleted records between `from`
    /// and `to`. Nothing that can be read changes.
    fn compact_range(&mut self, from: &[u8], to: &[u8])
        ensures
            final(self).reliable() == old(self).reliable(),
            final(self).contents() == old(self).contents(),
            final(self).compactions() == old(self).compactions().push((from@, to@)),
    ;
}

} // verus!
