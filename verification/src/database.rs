//! The database: five kinds of collection over one ordered store.

use vstd::prelude::*;
use crate::codec::{encode_meta_key, meta_key, meta_prefix, prefix_meta, tail_from};
use crate::error::{backend_fault, not_text, rejected, Error};
use crate::meta::{parse_meta, KeyMeta, KeyType, MetaView};
use crate::model::{
    has_unusable_meta, is_next_id, lemma_inv_lower, lemma_meta_key, lemma_resolve, meta_at, owned,
    owns, resolve, saved, store_inv, DbView,
};
use crate::scan::{listed, Cursor};
use crate::store::KvStore;

verus! {

/// How a database behaves.
#[derive(Clone, Copy, Debug)]
pub struct Options {
    /// A sorted list or sorted set asks the store to compact its range each
    /// time this many items were removed from it; zero means never.
    pub sorted_list_compact_deletes_count: u32,
    /// Whether the metadata record of a collection is dropped when its last
    /// item is removed. The key gets a new id when it is used again.
    pub delete_meta_when_empty: bool,
}

/// The options of a database opened without any: a compaction every 300
/// removals, and empty metadata records dropped.
pub open spec fn default_options() -> Options {
    Options { sorted_list_compact_deletes_count: 300, delete_meta_when_empty: true }
}

impl Default for Options {
    fn default() -> (r: Options)
        ensures
            r == default_options(),
    {
        Options { sorted_list_compact_deletes_count: 300, delete_meta_when_empty: true }
    }
}

/// The mathematical content of a metadata record that may be missing.
pub open spec fn meta_view(m: Option<KeyMeta>) -> Option<MetaView> {
    match m {
        Some(m) => Some(m@),
        None => None,
    }
}

/// A database over the store `S`.
pub struct Database<S: KvStore> {
    /// Where the records are kept.
    pub store: S,
    /// How the database behaves.
    pub options: Options,
    /// The id that the next new collection gets.
    pub next_key_id: u64,
}

impl<S: KvStore> View for Database<S> {
    type V = DbView;

    open spec fn view(&self) -> DbView {
        DbView {
            records: self.store.contents(),
            compactions: self.store.compactions(),
            next_key_id: self.next_key_id,
        }
    }
}

impl<S: KvStore> Database<S> {
    /// A database over `store` with the default options.
    pub fn open(store: S) -> (r: Result<Database<S>, Error>)
        ensures
            backend_fault(r) ==> !store.reliable(),
            !not_text(r),
            (exists|n: u64| store_inv(store.contents(), n)) ==> !rejected(r),
            rejected(r) ==> has_unusable_meta(store.contents()),
            r matches Ok(db) ==> {
                &&& db.store == store
                &&& db.options == default_options()
                &&& is_next_id(store.contents(), db.next_key_id)
                &&& (exists|n: u64| store_inv(store.contents(), n)) ==> db@.inv()
            },
    {
        Database::open_with_options(store, Options::default())
    }

    /// A database over `store`. The next id is one more than the greatest
    /// id that a metadata record in the store carries.
    pub fn open_with_options(store: S, options: Options) -> (r: Result<Database<S>, Error>)
        ensures
            backend_fault(r) ==> !store.reliable(),
            !not_text(r),
            (exists|n: u64| store_inv(store.contents(), n)) ==> !rejected(r),
            rejected(r) ==> has_unusable_meta(store.contents()),
            r matches Ok(db) ==> {
                &&& db.store == store
                &&& db.options == options
                &&& is_next_id(store.contents(), db.next_key_id)
                &&& (exists|n: u64| store_inv(store.contents(), n)) ==> db@.inv()
            },
    {
        let ghost s = store.contents();
        let prefix = prefix_meta();
        let mut cursor = Cursor::new(prefix.as_slice());
        let mut last_key_id: u64 = 0;
        loop
            invariant
                s == store.contents(),
                cursor.inv(s),
                cursor.prefix@ == meta_prefix(),
                forall|i: int|
                    0 <= i < cursor.taken@.len() ==> match parse_meta(
                        (#[trigger] cursor.taken@[i]).1,
                    ) {
                        Some(m) => m.id <= last_key_id,
                        None => false,
                    },
                last_key_id == 0 || owned(s, last_key_id),
            ensures
                cursor.done,
            decreases cursor.remaining(s),
        {
            let found = match cursor.next(&store) {
                Ok(found) => found,
                Err(e) => {
                    return Err(Error::Backend(e));
                },
            };
            match found {
                None => {
                    break ;
                },
                Some((k, v)) => {
                    proof {
                        cursor.lemma_inv(s);
                        let name = tail_from(k@, 3);
                        lemma_meta_key(name);
                        assert(cursor.taken@.last() == (k@, v@));
                        assert(s.contains_key(cursor.taken@.last().0));
                        assert(k@ =~= meta_key(name));
                        if exists|n: u64| store_inv(s, n) {
                            let n = choose|n: u64| store_inv(s, n);
                            assert(crate::model::meta_ok(s, name, n));
                        }
                    }
                    match KeyMeta::from_bytes(v.as_slice()) {
                        None => {
                            proof {
                                assert(s.contains_key(meta_key(tail_from(k@, 3))));
                            }
                            return Err(Error::message("the metadata record cannot be read"));
                        },
                        Some(meta) => {
                            if meta.id > last_key_id {
                                last_key_id = meta.id;
                                proof {
                                    assert(owns(s, tail_from(k@, 3), meta.id));
                                }
                            }
                        },
                    }
                },
            }
        }
        if last_key_id == u64::MAX {
            proof {
                if exists|n: u64| store_inv(s, n) {
                    let n = choose|n: u64| store_inv(s, n);
                    crate::model::lemma_owned_below(s, n, last_key_id);
                }
                let owner = choose|owner: Seq<u8>| owns(s, owner, last_key_id);
                assert(s.contains_key(meta_key(owner)));
            }
            return Err(Error::message("no key id is left"));
        }
        let db = Database { store, options, next_key_id: last_key_id + 1 };
        proof {
            cursor.lemma_inv(s);
            assert forall|name: Seq<u8>| s.contains_key(#[trigger] meta_key(name)) implies (
            match meta_at(s, name) {
                Some(m) => m.id < db.next_key_id,
                None => false,
            }) by {
                lemma_meta_key(name);
                assert(listed(cursor.taken@, meta_key(name)));
                let i = choose|i: int|
                    0 <= i < cursor.taken@.len() && (#[trigger] cursor.taken@[i]).0 == meta_key(
                        name,
                    );
                assert(cursor.taken@[i].1 == s[meta_key(name)]);
            }
            if exists|n: u64| store_inv(s, n) {
                let n = choose|n: u64| store_inv(s, n);
                lemma_inv_lower(s, n, db.next_key_id);
            }
        }
        Ok(db)
    }

    /// Writes the metadata record of `key`, or removes it when it counts
    /// nothing, `delete_if_empty` is set, and the options ask for that.
    pub fn save_meta(&mut self, key: &[u8], meta: &KeyMeta, delete_if_empty: bool) -> (r: Result<
        (),
        Error,
    >)
        ensures
            final(self).options == old(self).options,
            final(self).store.reliable() == old(self).store.reliable(),
            final(self)@.next_key_id == old(self)@.next_key_id,
            final(self)@.compactions == old(self)@.compactions,
            old(self).store.reliable() ==> r is Ok,
            r is Ok ==> final(self)@.records == saved(
                old(self)@.records,
                key@,
                meta@,
                old(self).options.delete_meta_when_empty && delete_if_empty,
            ),
            r is Err ==> backend_fault(r) && final(self)@ == old(self)@,
    {
        let meta_key = encode_meta_key(key);
        let outcome = if self.options.delete_meta_when_empty && delete_if_empty && meta.count < 1 {
            self.store.delete(meta_key.as_slice())
        } else {
            let bytes = meta.get_bytes();
            self.store.put(meta_key.as_slice(), bytes.as_slice())
        };
        match outcome {
            Ok(()) => Ok(()),
            Err(e) => Err(Error::Backend(e)),
        }
    }

    /// The metadata record of `key`, if the key is in use.
    pub fn get_meta(&self, key: &[u8]) -> (r: Result<Option<KeyMeta>, Error>)
        ensures
            match r {
                Ok(m) => meta_view(m) == meta_at(self@.records, key@) && (m is None
                    ==> !self@.records.contains_key(meta_key(key@))) && (m matches Some(k)
                    ==> k@.wf()),
                Err(Error::Backend(_)) => !self.store.reliable(),
                Err(Error::Message(_)) => self@.records.contains_key(meta_key(key@)) && meta_at(
                    self@.records,
                    key@,
                ) is None,
                Err(Error::InvalidUtf8(_)) => false,
            },
            self@.inv() ==> !rejected(r),
    {
        let meta_key = encode_meta_key(key);
        match self.store.get(meta_key.as_slice()) {
            Err(e) => Err(Error::Backend(e)),
            Ok(None) => Ok(None),
            Ok(Some(bytes)) => match KeyMeta::from_bytes(bytes.as_slice()) {
                Some(m) => Ok(Some(m)),
                None => {
                    Err(Error::message("the metadata record cannot be read"))
                },
            },
        }
    }

    /// The metadata record of `key`; a new one of type `key_type`, under the
    /// next id, when the key is not in use.
    pub fn get_or_create_meta(&mut self, key: &[u8], key_type: KeyType) -> (r: Result<
        KeyMeta,
        Error,
    >)
        ensures
            final(self).options == old(self).options,
            final(self).store.reliable() == old(self).store.reliable(),
            backend_fault(r) ==> !old(self).store.reliable(),
            !not_text(r),
            old(self)@.inv() && !backend_fault(r) ==> {
                let out = resolve(old(self)@, key@, key_type);
                &&& final(self)@ == out.state
                &&& final(self)@.inv()
                &&& match r {
                    Ok(m) => out.result == Some(m@),
                    Err(_) => out.result is None,
                }
            },
    {
        proof {
            if self@.inv() {
                lemma_resolve(self@, key@, key_type);
            }
        }
        match self.get_meta(key)? {
            Some(m) => Ok(m),
            None => {
                if self.next_key_id == u64::MAX {
                    return Err(Error::message("no key id is left"));
                }
                let m = KeyMeta::new(self.next_key_id, key_type);
                self.next_key_id = self.next_key_id + 1;
                self.save_meta(key, &m, false)?;
                Ok(m)
            },
        }
    }

    /// The number of items stored under `key`; zero when the key is not in use.
    pub fn get_count(&self, key: &[u8]) -> (r: Result<u64, Error>)
        ensures
            backend_fault(r) ==> !self.store.reliable(),
            !not_text(r),
            self@.inv() ==> !rejected(r),
            r matches Ok(n) ==> n == count_of(self@.records, key@),
    {
        match self.get_meta(key)? {
            Some(m) => Ok(m.count),
            None => Ok(0),
        }
    }
}

/// The count in the metadata record of `name`; zero when there is none.
pub open spec fn count_of(s: crate::store::Contents, name: Seq<u8>) -> u64 {
    match meta_at(s, name) {
        Some(m) => m.count,
        None => 0,
    }
}

} // verus!
