//! Maps and sets: the two collections whose records need no order.
//!
//! A map holds a value under each field, a set holds members. The key of a
//! record is the collection's prefix followed by the field or the member;
//! the count in the metadata record is the number of records.

use vstd::prelude::*;
use vstd::string::StringSliceAdditionalSpecFns;
use crate::codec::{
    encode_data_key_map_item, encode_data_key_set_item, fill_empty_data, filler, item_key, meta_key,
};
use crate::database::{count_of, Database};
use crate::error::{backend_fault, not_text, rejected, Error};
use crate::meta::{encode_meta, fresh_meta, KeyMeta, KeyType, MetaView};
use crate::model::{
    collection, collection_ok, lemma_collection_finite, lemma_collection_insert,
    lemma_collection_remove, lemma_item_key, lemma_meta_key, lemma_resolve, lemma_touch_collection,
    lemma_unused_id_empty, lemma_update_collection, meta_at, meta_ok, resolve, saved, DbView,
    Outcome,
};
use crate::store::{lookup, value_view, Contents, KvStore};

verus! {

/// `t` is one of the two types without order.
pub open spec fn is_plain(t: KeyType) -> bool {
    t == KeyType::MapKey || t == KeyType::SetKey
}

/// Writes `value` under `tail` in the collection of `name`, which is of the
/// plain type `t`, and says whether the record is new. The count grows when
/// it is. The metadata record is saved when the record is new, and also
/// when it is not if `always_save` is set. Turned down when the key holds
/// another type of collection or the count is at its limit.
pub open spec fn plain_put_spec(
    pre: DbView,
    name: Seq<u8>,
    t: KeyType,
    tail: Seq<u8>,
    value: Seq<u8>,
    always_save: bool,
) -> Outcome<bool> {
    let r = resolve(pre, name, t);
    match r.result {
        None => Outcome { state: r.state, result: None },
        Some(m) => {
            let s = r.state.records;
            let k = item_key(m.id, tail);
            if m.key_type != t || (!s.contains_key(k) && m.count == u64::MAX) {
                Outcome { state: r.state, result: None }
            } else if !s.contains_key(k) {
                Outcome {
                    state: r.state.with_records(
                        saved(s.insert(k, value), name, m.with_count((m.count + 1) as u64), false),
                    ),
                    result: Some(true),
                }
            } else if always_save {
                Outcome {
                    state: r.state.with_records(saved(s.insert(k, value), name, m, false)),
                    result: Some(false),
                }
            } else {
                Outcome { state: r.state.with_records(s.insert(k, value)), result: Some(false) }
            }
        },
    }
}

/// Removes the record under `tail` from the collection of `name` and says
/// whether there was one. Turned down when the key holds another type of
/// collection.
pub open spec fn plain_delete_spec(
    pre: DbView,
    drop_if_empty: bool,
    name: Seq<u8>,
    t: KeyType,
    tail: Seq<u8>,
) -> Outcome<bool> {
    match meta_at(pre.records, name) {
        None => Outcome { state: pre, result: Some(false) },
        Some(m) => {
            let k = item_key(m.id, tail);
            if m.key_type != t {
                Outcome { state: pre, result: None }
            } else if !pre.records.contains_key(k) {
                Outcome { state: pre, result: Some(false) }
            } else {
                Outcome {
                    state: pre.with_records(
                        saved(
                            pre.records.remove(k),
                            name,
                            m.with_count((m.count - 1) as u64),
                            drop_if_empty,
                        ),
                    ),
                    result: Some(true),
                }
            }
        },
    }
}

/// The value under `tail` in the collection of `name`. Turned down when the
/// key holds another type of collection.
pub open spec fn plain_get_spec(s: Contents, name: Seq<u8>, t: KeyType, tail: Seq<u8>) -> Option<
    Option<Seq<u8>>,
> {
    match meta_at(s, name) {
        None => Some(None),
        Some(m) => if m.key_type != t {
            None
        } else {
            Some(lookup(s, item_key(m.id, tail)))
        },
    }
}

/// Whether the set of `name` has the member `value`.
pub open spec fn set_is_member_spec(s: Contents, name: Seq<u8>, value: Seq<u8>) -> Option<bool> {
    match plain_get_spec(s, name, KeyType::SetKey, value) {
        None => None,
        Some(found) => Some(found is Some),
    }
}

/// A plain collection that gains or rewrites a record stays in order, under
/// a count one more when the record is new.
pub proof fn lemma_plain_put(c: Contents, m: MetaView, k: Seq<u8>, v: Seq<u8>)
    requires
        is_plain(m.key_type),
        collection_ok(c, m),
        c.dom().finite(),
    ensures
        c.contains_key(k) ==> collection_ok(c.insert(k, v), m),
        !c.contains_key(k) && m.count < u64::MAX ==> collection_ok(
            c.insert(k, v),
            m.with_count((m.count + 1) as u64),
        ),
{
    if c.contains_key(k) {
        assert(c.insert(k, v).dom() =~= c.dom());
    } else {
        assert(c.insert(k, v).dom() =~= c.dom().insert(k));
    }
}

/// A plain collection that loses a record stays in order under a count one
/// less.
pub proof fn lemma_plain_take(c: Contents, m: MetaView, k: Seq<u8>)
    requires
        is_plain(m.key_type),
        collection_ok(c, m),
        c.dom().finite(),
        c.contains_key(k),
    ensures
        m.count >= 1,
        collection_ok(c.remove(k), m.with_count((m.count - 1) as u64)),
{
    assert(c.remove(k).dom() =~= c.dom().remove(k));
}

/// A put into a plain collection whose key was not in use: the key gets the
/// next id, and its record is written once, counting one. The database stays
/// consistent.
pub proof fn lemma_plain_put_new(
    pre: DbView,
    name: Seq<u8>,
    t: KeyType,
    tail: Seq<u8>,
    value: Seq<u8>,
    always_save: bool,
)
    requires
        pre.inv(),
        is_plain(t),
        meta_at(pre.records, name) is None,
        pre.next_key_id < u64::MAX,
    ensures
        ({
            let out = plain_put_spec(pre, name, t, tail, value, always_save);
            let m = fresh_meta(pre.next_key_id, t);
            let k = item_key(m.id, tail);
            &&& out.state.inv()
            &&& out.state.compactions == pre.compactions
            &&& !pre.records.contains_key(meta_key(name))
            &&& !pre.records.contains_key(k)
            &&& out.result == Some(true)
            &&& out.state.next_key_id == pre.next_key_id + 1
            &&& out.state.records == pre.records.insert(k, value).insert(
                meta_key(name),
                encode_meta(m.with_count(1)),
            )
        }),
{
    let before = resolve(pre, name, t);
    lemma_resolve(pre, name, t);
    lemma_meta_key(name);
    let m = before.result.unwrap();
    let s = before.state.records;
    let k = item_key(m.id, tail);
    let m2 = m.with_count(1);
    assert(s.contains_key(meta_key(name)));
    assert(meta_ok(s, name, before.state.next_key_id));
    lemma_collection_finite(s, m.id);
    lemma_item_key(m.id, tail);
    lemma_unused_id_empty(pre.records, pre.next_key_id, m.id);
    assert(!collection(pre.records, m.id).contains_key(k));
    assert(!s.contains_key(k));
    lemma_plain_put(collection(s, m.id), m, k, value);
    lemma_collection_insert(s, m.id, k, value);
    lemma_update_collection(s, before.state.next_key_id, name, s.insert(k, value), m2, false);
    assert(saved(s.insert(k, value), name, m2, false) =~= pre.records.insert(k, value).insert(
        meta_key(name),
        encode_meta(m2),
    ));
}

/// A put into a plain collection whose key was in use. The database stays
/// consistent.
pub proof fn lemma_plain_put_old(
    pre: DbView,
    name: Seq<u8>,
    t: KeyType,
    tail: Seq<u8>,
    value: Seq<u8>,
    always_save: bool,
)
    requires
        pre.inv(),
        is_plain(t),
        meta_at(pre.records, name) is Some,
    ensures
        ({
            let out = plain_put_spec(pre, name, t, tail, value, always_save);
            let s = pre.records;
            let m = meta_at(s, name).unwrap();
            let k = item_key(m.id, tail);
            &&& out.state.inv()
            &&& out.state.compactions == pre.compactions
            &&& out.state.next_key_id == pre.next_key_id
            &&& if m.key_type != t || (!s.contains_key(k) && m.count == u64::MAX) {
                out.result is None && out.state == pre
            } else if !s.contains_key(k) {
                out.result == Some(true) && out.state.records == s.insert(k, value).insert(
                    meta_key(name),
                    encode_meta(m.with_count((m.count + 1) as u64)),
                )
            } else if always_save {
                out.result == Some(false) && out.state.records == s.insert(k, value).insert(
                    meta_key(name),
                    encode_meta(m),
                )
            } else {
                out.result == Some(false) && out.state.records == s.insert(k, value)
            }
        }),
{
    let s = pre.records;
    let m = meta_at(s, name).unwrap();
    let k = item_key(m.id, tail);
    assert(resolve(pre, name, t).state == pre);
    assert(s.contains_key(meta_key(name)));
    assert(meta_ok(s, name, pre.next_key_id));
    if m.key_type == t && !(!s.contains_key(k) && m.count == u64::MAX) {
        lemma_collection_finite(s, m.id);
        lemma_item_key(m.id, tail);
        lemma_plain_put(collection(s, m.id), m, k, value);
        lemma_collection_insert(s, m.id, k, value);
        if !s.contains_key(k) {
            lemma_update_collection(
                s,
                pre.next_key_id,
                name,
                s.insert(k, value),
                m.with_count((m.count + 1) as u64),
                false,
            );
        } else if always_save {
            lemma_update_collection(s, pre.next_key_id, name, s.insert(k, value), m, false);
        } else {
            lemma_touch_collection(s, pre.next_key_id, name, s.insert(k, value));
        }
    }
}

impl<S: KvStore> Database<S> {
    /// Writes a record of a plain collection.
    fn plain_put(&mut self, name: &[u8], map: bool, tail: &[u8], value: &[u8]) -> (r: Result<
        bool,
        Error,
    >)
        ensures
            final(self).options == old(self).options,
            final(self).store.reliable() == old(self).store.reliable(),
            backend_fault(r) ==> !old(self).store.reliable(),
            !not_text(r),
            old(self)@.inv() && !backend_fault(r) ==> {
                let out = plain_put_spec(
                    old(self)@,
                    name@,
                    if map {
                        KeyType::MapKey
                    } else {
                        KeyType::SetKey
                    },
                    tail@,
                    value@,
                    map,
                );
                &&& final(self)@ == out.state
                &&& final(self)@.inv()
                &&& match r {
                    Ok(fresh) => out.result == Some(fresh),
                    Err(_) => out.result is None,
                }
            },
    {
        let ghost pre = self@;
        let key_type = if map {
            KeyType::MapKey
        } else {
            KeyType::SetKey
        };
        // The record of a key that comes into use is written once, below,
        // together with its first count.
        let found = self.get_meta(name)?;
        let created = found.is_none();
        proof {
            if pre.inv() {
                if !created {
                    lemma_plain_put_old(pre, name@, key_type, tail@, value@, map);
                } else if pre.next_key_id < u64::MAX {
                    lemma_plain_put_new(pre, name@, key_type, tail@, value@, map);
                }
            }
        }
        let mut meta = match found {
            Some(meta) => meta,
            None => {
                if self.next_key_id == u64::MAX {
                    return Err(Error::message("no key id is left"));
                }
                KeyMeta::new(self.next_key_id, key_type)
            },
        };
        let right_type = match meta.key_type {
            KeyType::MapKey => map,
            KeyType::SetKey => !map,
            _ => false,
        };
        if !right_type {
            return Err(Error::message("the key holds a collection of another type"));
        }
        let full_key = if map {
            encode_data_key_map_item(meta.id, tail)
        } else {
            encode_data_key_set_item(meta.id, tail)
        };
        let known = match self.store.get(full_key.as_slice()) {
            Ok(known) => known,
            Err(e) => {
                return Err(Error::Backend(e));
            },
        };
        let fresh = known.is_none();
        if fresh && meta.count == u64::MAX {
            return Err(Error::message("the collection cannot take more items"));
        }
        if created {
            self.next_key_id = self.next_key_id + 1;
        }
        if fresh {
            meta.count = meta.count + 1;
        }
        match self.store.put(full_key.as_slice(), value) {
            Ok(()) => {},
            Err(e) => {
                return Err(Error::Backend(e));
            },
        }
        if fresh || map || created {
            self.save_meta(name, &meta, false)?;
        }
        Ok(fresh)
    }

    /// Removes a record of a plain collection.
    fn plain_delete(&mut self, name: &[u8], map: bool, tail: &[u8]) -> (r: Result<bool, Error>)
        ensures
            final(self).options == old(self).options,
            final(self).store.reliable() == old(self).store.reliable(),
            backend_fault(r) ==> !old(self).store.reliable(),
            !not_text(r),
            old(self)@.inv() && !backend_fault(r) ==> {
                let out = plain_delete_spec(
                    old(self)@,
                    old(self).options.delete_meta_when_empty,
                    name@,
                    if map {
                        KeyType::MapKey
                    } else {
                        KeyType::SetKey
                    },
                    tail@,
                );
                &&& final(self)@ == out.state
                &&& final(self)@.inv()
                &&& match r {
                    Ok(found) => out.result == Some(found),
                    Err(_) => out.result is None,
                }
            },
    {
        let ghost pre = self@;
        let ghost s = pre.records;
        let mut meta = match self.get_meta(name)? {
            None => {
                return Ok(false);
            },
            Some(meta) => meta,
        };
        let ghost m = meta@;
        let ghost c = collection(s, m.id);
        let right_type = match meta.key_type {
            KeyType::MapKey => map,
            KeyType::SetKey => !map,
            _ => false,
        };
        if !right_type {
            return Err(Error::message("the key holds a collection of another type"));
        }
        let full_key = if map {
            encode_data_key_map_item(meta.id, tail)
        } else {
            encode_data_key_set_item(meta.id, tail)
        };
        let known = match self.store.get(full_key.as_slice()) {
            Ok(known) => known,
            Err(e) => {
                return Err(Error::Backend(e));
            },
        };
        if known.is_none() {
            return Ok(false);
        }
        proof {
            if pre.inv() {
                assert(meta_ok(s, name@, pre.next_key_id));
                lemma_collection_finite(s, m.id);
                lemma_item_key(m.id, tail@);
                lemma_plain_take(c, m, full_key@);
                lemma_collection_remove(s, m.id, full_key@);
            }
        }
        if meta.count == 0 {
            return Err(Error::message("the count does not match the records"));
        }
        meta.count = meta.count - 1;
        match self.store.delete(full_key.as_slice()) {
            Ok(()) => {},
            Err(e) => {
                return Err(Error::Backend(e));
            },
        }
        self.save_meta(name, &meta, true)?;
        proof {
            if pre.inv() {
                lemma_update_collection(
                    s,
                    pre.next_key_id,
                    name@,
                    s.remove(full_key@),
                    meta@,
                    self.options.delete_meta_when_empty,
                );
            }
        }
        Ok(true)
    }

    /// Reads a record of a plain collection.
    fn plain_get(&self, name: &[u8], map: bool, tail: &[u8]) -> (r: Result<Option<Vec<u8>>, Error>)
        ensures
            backend_fault(r) ==> !self.store.reliable(),
            !not_text(r),
            self@.inv() && !backend_fault(r) ==> {
                let out = plain_get_spec(
                    self@.records,
                    name@,
                    if map {
                        KeyType::MapKey
                    } else {
                        KeyType::SetKey
                    },
                    tail@,
                );
                match r {
                    Ok(found) => out == Some(value_view(found)),
                    Err(_) => out is None,
                }
            },
    {
        let meta = match self.get_meta(name)? {
            None => {
                return Ok(None);
            },
            Some(meta) => meta,
        };
        let right_type = match meta.key_type {
            KeyType::MapKey => map,
            KeyType::SetKey => !map,
            _ => false,
        };
        if !right_type {
            return Err(Error::message("the key holds a collection of another type"));
        }
        let full_key = if map {
            encode_data_key_map_item(meta.id, tail)
        } else {
            encode_data_key_set_item(meta.id, tail)
        };
        match self.store.get(full_key.as_slice()) {
            Ok(known) => Ok(known),
            Err(e) => Err(Error::Backend(e)),
        }
    }

    /// The number of fields in the map of `key`.
    pub fn map_count(&self, key: &[u8]) -> (r: Result<u64, Error>)
        ensures
            backend_fault(r) ==> !self.store.reliable(),
            !not_text(r),
            self@.inv() ==> !rejected(r),
            r matches Ok(n) ==> n == count_of(self@.records, key@),
    {
        self.get_count(key)
    }

    /// The value under `field` in the map of `key`.
    pub fn map_get(&self, key: &[u8], field: &[u8]) -> (r: Result<Option<Vec<u8>>, Error>)
        ensures
            backend_fault(r) ==> !self.store.reliable(),
            !not_text(r),
            self@.inv() && !backend_fault(r) ==> {
                let out = plain_get_spec(self@.records, key@, KeyType::MapKey, field@);
                match r {
                    Ok(found) => out == Some(value_view(found)),
                    Err(_) => out is None,
                }
            },
    {
        self.plain_get(key, true, field)
    }

    /// Stores `value` under `field` in the map of `key`.
    pub fn map_put(&mut self, key: &[u8], field: &[u8], value: &[u8]) -> (r: Result<(), Error>)
        ensures
            final(self).options == old(self).options,
            final(self).store.reliable() == old(self).store.reliable(),
            backend_fault(r) ==> !old(self).store.reliable(),
            !not_text(r),
            old(self)@.inv() && !backend_fault(r) ==> {
                let out = plain_put_spec(old(self)@, key@, KeyType::MapKey, field@, value@, true);
                &&& final(self)@ == out.state
                &&& final(self)@.inv()
                &&& r is Ok <==> out.result is Some
            },
    {
        match self.plain_put(key, true, field, value) {
            Ok(_) => Ok(()),
            Err(e) => Err(e),
        }
    }

    /// Removes `field` from the map of `key` and says whether it was there.
    pub fn map_delete(&mut self, key: &[u8], field: &[u8]) -> (r: Result<bool, Error>)
        ensures
            final(self).options == old(self).options,
            final(self).store.reliable() == old(self).store.reliable(),
            backend_fault(r) ==> !old(self).store.reliable(),
            !not_text(r),
            old(self)@.inv() && !backend_fault(r) ==> {
                let out = plain_delete_spec(
                    old(self)@,
                    old(self).options.delete_meta_when_empty,
                    key@,
                    KeyType::MapKey,
                    field@,
                );
                &&& final(self)@ == out.state
                &&& final(self)@.inv()
                &&& match r {
                    Ok(found) => out.result == Some(found),
                    Err(_) => out.result is None,
                }
            },
    {
        self.plain_delete(key, true, field)
    }

    /// The number of members of the set of `key`.
    pub fn set_count(&self, key: &str) -> (r: Result<u64, Error>)
        ensures
            backend_fault(r) ==> !self.store.reliable(),
            !not_text(r),
            self@.inv() ==> !rejected(r),
            r matches Ok(n) ==> n == count_of(self@.records, key.spec_bytes()),
    {
        self.get_count(key.as_bytes())
    }

    /// Adds `value` to the set of `key` and says whether it is new.
    pub fn set_add(&mut self, key: &str, value: &[u8]) -> (r: Result<bool, Error>)
        ensures
            final(self).options == old(self).options,
            final(self).store.reliable() == old(self).store.reliable(),
            backend_fault(r) ==> !old(self).store.reliable(),
            !not_text(r),
            old(self)@.inv() && !backend_fault(r) ==> {
                let out = plain_put_spec(
                    old(self)@,
                    key.spec_bytes(),
                    KeyType::SetKey,
                    value@,
                    filler(),
                    false,
                );
                &&& final(self)@ == out.state
                &&& final(self)@.inv()
                &&& match r {
                    Ok(fresh) => out.result == Some(fresh),
                    Err(_) => out.result is None,
                }
            },
    {
        let filler = fill_empty_data();
        self.plain_put(key.as_bytes(), false, value, filler.as_slice())
    }

    /// Whether `value` is a member of the set of `key`.
    pub fn set_is_member(&self, key: &str, value: &[u8]) -> (r: Result<bool, Error>)
        ensures
            backend_fault(r) ==> !self.store.reliable(),
            !not_text(r),
            self@.inv() && !backend_fault(r) ==> {
                let out = set_is_member_spec(self@.records, key.spec_bytes(), value@);
                match r {
                    Ok(found) => out == Some(found),
                    Err(_) => out is None,
                }
            },
    {
        match self.plain_get(key.as_bytes(), false, value) {
            Ok(found) => Ok(found.is_some()),
            Err(e) => Err(e),
        }
    }

    /// Removes `value` from the set of `key` and says whether it was a
    /// member.
    pub fn set_delete(&mut self, key: &str, value: &[u8]) -> (r: Result<bool, Error>)
        ensures
            final(self).options == old(self).options,
            final(self).store.reliable() == old(self).store.reliable(),
            backend_fault(r) ==> !old(self).store.reliable(),
            !not_text(r),
            old(self)@.inv() && !backend_fault(r) ==> {
                let out = plain_delete_spec(
                    old(self)@,
                    old(self).options.delete_meta_when_empty,
                    key.spec_bytes(),
                    KeyType::SetKey,
                    value@,
                );
                &&& final(self)@ == out.state
                &&& final(self)@.inv()
                &&& match r {
                    Ok(found) => out.result == Some(found),
                    Err(_) => out.result is None,
                }
            },
    {
        self.plain_delete(key.as_bytes(), false, value)
    }
}

} // verus!
