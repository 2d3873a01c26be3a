//! Lists: items in a row that grows and shrinks at both ends.
//!
//! An item sits at a signed position. The metadata record holds the two
//! positions just outside the ends; the items fill every position strictly
//! between them. The positions are stored shifted by 2^63, so that the keys
//! of the items sort in the order of the positions, through zero as well.

use vstd::prelude::*;
use vstd::string::StringSliceAdditionalSpecFns;
use crate::bigendian::{
    be_bytes, be_value, biased, lemma_be_bytes_of_value, lemma_be_len, lemma_be_value_of_bytes,
    lemma_pow256_values, lemma_signed_round_trip,
};
use crate::codec::{data_prefix, encode_data_key_list_item, list_item_key};
use crate::database::{count_of, Database};
use crate::error::{backend_fault, not_text, rejected, Error};
use crate::meta::{lemma_list_extra, list_extra, KeyType, MetaView};
use crate::model::{
    collection, collection_ok, in_collection, lemma_collection_finite, lemma_collection_insert,
    lemma_collection_remove, lemma_data_prefix, lemma_in_collection, lemma_meta_key, lemma_resolve,
    lemma_update_collection, meta_at, meta_ok, position_of, resolve, saved, DbView, Outcome,
};
use crate::store::{lookup, value_view, Contents, KvStore};

verus! {

/// The record of a list after an item was pushed at the left end or the
/// right.
pub open spec fn after_push(m: MetaView, left: bool) -> MetaView {
    m.with_count((m.count + 1) as u64).with_extra(
        if left {
            list_extra((m.list_left() - 1) as i64, m.list_right())
        } else {
            list_extra(m.list_left(), (m.list_right() + 1) as i64)
        },
    )
}

/// The record of a list after an item was popped from the left end or the
/// right.
pub open spec fn after_list_pop(m: MetaView, left: bool) -> MetaView {
    m.with_count((m.count - 1) as u64).with_extra(
        if left {
            list_extra((m.list_left() + 1) as i64, m.list_right())
        } else {
            list_extra(m.list_left(), (m.list_right() - 1) as i64)
        },
    )
}

/// The position at which a push puts its item: the position just outside
/// the end.
pub open spec fn push_position(m: MetaView, left: bool) -> i64 {
    if left {
        m.list_left()
    } else {
        m.list_right()
    }
}

/// The position from which a pop takes its item: the last position inside
/// the end.
pub open spec fn pop_position(m: MetaView, left: bool) -> i64 {
    if left {
        (m.list_left() + 1) as i64
    } else {
        (m.list_right() - 1) as i64
    }
}

/// Whether a list with record `m` can take one more item at this end.
pub open spec fn has_room(m: MetaView, left: bool) -> bool {
    &&& m.count < u64::MAX
    &&& left ==> m.list_left() > i64::MIN
    &&& !left ==> m.list_right() < i64::MAX
}

/// Pushes `value` at one end and hands back the new count. Turned down when
/// the key holds another type of collection or the list has no room at that
/// end.
pub open spec fn list_push_spec(
    pre: DbView,
    name: Seq<u8>,
    value: Seq<u8>,
    left: bool,
) -> Outcome<u64> {
    let r = resolve(pre, name, KeyType::ListKey);
    match r.result {
        None => Outcome { state: r.state, result: None },
        Some(m) => if m.key_type != KeyType::ListKey || !has_room(m, left) {
            Outcome { state: r.state, result: None }
        } else {
            Outcome {
                state: r.state.with_records(
                    saved(
                        r.state.records.insert(
                            list_item_key(m.id, push_position(m, left)),
                            value,
                        ),
                        name,
                        after_push(m, left),
                        false,
                    ),
                ),
                result: Some((m.count + 1) as u64),
            }
        },
    }
}

/// Pops the item at one end. Nothing is popped, and nothing changes, when
/// the key is not in use or the list is empty. Turned down when the key
/// holds another type of collection.
pub open spec fn list_pop_spec(
    pre: DbView,
    drop_if_empty: bool,
    name: Seq<u8>,
    left: bool,
) -> Outcome<
    Option<Seq<u8>>,
> {
    match meta_at(pre.records, name) {
        None => Outcome { state: pre, result: Some(None) },
        Some(m) => {
            let k = list_item_key(m.id, pop_position(m, left));
            if m.key_type != KeyType::ListKey {
                Outcome { state: pre, result: None }
            } else {
                match lookup(pre.records, k) {
                    None => Outcome { state: pre, result: Some(None) },
                    Some(v) => Outcome {
                        state: pre.with_records(
                            saved(pre.records, name, after_list_pop(m, left), drop_if_empty).remove(
                                k,
                            ),
                        ),
                        result: Some(Some(v)),
                    },
                }
            }
        },
    }
}

/// The key of a list item holds its position.
pub proof fn lemma_list_key(id: u64, position: i64)
    ensures
        in_collection(id, list_item_key(id, position)),
        list_item_key(id, position).len() == 18,
        position_of(list_item_key(id, position)) == position,
{
    let k = list_item_key(id, position);
    lemma_data_prefix(id);
    lemma_signed_round_trip(position);
    lemma_be_len(biased(position), 8);
    lemma_be_value_of_bytes(biased(position), 8);
    assert(k.subrange(0, 10) =~= data_prefix(id));
    assert(k.subrange(10, 18) =~= be_bytes(biased(position), 8));
}

/// A list's record of eighteen bytes is the key of the position it holds.
pub proof fn lemma_list_key_of(id: u64, k: Seq<u8>)
    requires
        in_collection(id, k),
        k.len() == 18,
    ensures
        k == list_item_key(id, position_of(k)),
{
    lemma_data_prefix(id);
    lemma_in_collection(id, k);
    let tail = k.subrange(10, 18);
    lemma_be_bytes_of_value(tail);
    lemma_pow256_values();
    assert(biased(position_of(k)) == be_value(tail));
    assert(k =~= data_prefix(id) + tail);
}

/// A list that gains an item just outside one of its ends stays in order.
pub proof fn lemma_list_push(c: Contents, m: MetaView, value: Seq<u8>, left: bool)
    requires
        m.key_type == KeyType::ListKey,
        collection_ok(c, m),
        c.dom().finite(),
        has_room(m, left),
    ensures
        !c.contains_key(list_item_key(m.id, push_position(m, left))),
        collection_ok(
            c.insert(list_item_key(m.id, push_position(m, left)), value),
            after_push(m, left),
        ),
{
    let position = push_position(m, left);
    let k = list_item_key(m.id, position);
    let m2 = after_push(m, left);
    let c2 = c.insert(k, value);
    lemma_list_key(m.id, position);
    if left {
        lemma_list_extra((m.list_left() - 1) as i64, m.list_right());
    } else {
        lemma_list_extra(m.list_left(), (m.list_right() + 1) as i64);
    }
    assert(c2.dom() =~= c.dom().insert(k));
    assert forall|p: i64| m2.list_left() < p < m2.list_right() implies c2.contains_key(
        #[trigger] list_item_key(m2.id, p),
    ) by {
        if p != position {
            assert(c.contains_key(list_item_key(m.id, p)));
        }
    }
}

/// A list that loses the item at one of its ends stays in order.
pub proof fn lemma_list_pop(c: Contents, m: MetaView, left: bool)
    requires
        m.key_type == KeyType::ListKey,
        collection_ok(c, m),
        c.dom().finite(),
        forall|x: Seq<u8>| c.contains_key(x) ==> in_collection(m.id, x),
        m.list_left() < i64::MAX,
        m.list_right() > i64::MIN,
        c.contains_key(list_item_key(m.id, pop_position(m, left))),
    ensures
        m.count >= 1,
        collection_ok(
            c.remove(list_item_key(m.id, pop_position(m, left))),
            after_list_pop(m, left),
        ),
{
    let position = pop_position(m, left);
    let k = list_item_key(m.id, position);
    let m2 = after_list_pop(m, left);
    let c2 = c.remove(k);
    lemma_list_key(m.id, position);
    if left {
        lemma_list_extra((m.list_left() + 1) as i64, m.list_right());
    } else {
        lemma_list_extra(m.list_left(), (m.list_right() - 1) as i64);
    }
    assert(c2.dom() =~= c.dom().remove(k));
    assert forall|p: i64| m2.list_left() < p < m2.list_right() implies c2.contains_key(
        #[trigger] list_item_key(m2.id, p),
    ) by {
        assert(c.contains_key(list_item_key(m.id, p)));
        lemma_list_key(m.id, p);
    }
    assert forall|x: Seq<u8>| #[trigger] c2.contains_key(x) implies x.len() == 18
        && m2.list_left() < position_of(x) < m2.list_right() by {
        assert(c.contains_key(x));
        lemma_list_key_of(m.id, x);
    }
}

impl<S: KvStore> Database<S> {
    /// The number of items in the list of `key`.
    pub fn list_count(&self, key: &str) -> (r: Result<u64, Error>)
        ensures
            backend_fault(r) ==> !self.store.reliable(),
            !not_text(r),
            self@.inv() ==> !rejected(r),
            r matches Ok(n) ==> n == count_of(self@.records, key.spec_bytes()),
    {
        self.get_count(key.as_bytes())
    }

    /// Puts `value` before the first item of the list of `key` and hands
    /// back the new count.
    pub fn list_left_push(&mut self, key: &str, value: &[u8]) -> (r: Result<u64, Error>)
        ensures
            final(self).options == old(self).options,
            final(self).store.reliable() == old(self).store.reliable(),
            backend_fault(r) ==> !old(self).store.reliable(),
            !not_text(r),
            old(self)@.inv() && !backend_fault(r) ==> {
                let out = list_push_spec(old(self)@, key.spec_bytes(), value@, true);
                &&& final(self)@ == out.state
                &&& final(self)@.inv()
                &&& match r {
                    Ok(n) => out.result == Some(n),
                    Err(_) => out.result is None,
                }
            },
    {
        self.list_push(key.as_bytes(), value, true)
    }

    /// Puts `value` after the last item of the list of `key` and hands back
    /// the new count.
    pub fn list_right_push(&mut self, key: &str, value: &[u8]) -> (r: Result<u64, Error>)
        ensures
            final(self).options == old(self).options,
            final(self).store.reliable() == old(self).store.reliable(),
            backend_fault(r) ==> !old(self).store.reliable(),
            !not_text(r),
            old(self)@.inv() && !backend_fault(r) ==> {
                let out = list_push_spec(old(self)@, key.spec_bytes(), value@, false);
                &&& final(self)@ == out.state
                &&& final(self)@.inv()
                &&& match r {
                    Ok(n) => out.result == Some(n),
                    Err(_) => out.result is None,
                }
            },
    {
        self.list_push(key.as_bytes(), value, false)
    }

    /// Takes the first item off the list of `key`.
    pub fn list_left_pop(&mut self, key: &str) -> (r: Result<Option<Vec<u8>>, Error>)
        ensures
            final(self).options == old(self).options,
            final(self).store.reliable() == old(self).store.reliable(),
            backend_fault(r) ==> !old(self).store.reliable(),
            !not_text(r),
            old(self)@.inv() && !backend_fault(r) ==> {
                let out = list_pop_spec(
                    old(self)@,
                    old(self).options.delete_meta_when_empty,
                    key.spec_bytes(),
                    true,
                );
                &&& final(self)@ == out.state
                &&& final(self)@.inv()
                &&& match r {
                    Ok(item) => out.result == Some(value_view(item)),
                    Err(_) => out.result is None,
                }
            },
    {
        self.list_pop(key.as_bytes(), true)
    }

    /// Takes the last item off the list of `key`.
    pub fn list_right_pop(&mut self, key: &str) -> (r: Result<Option<Vec<u8>>, Error>)
        ensures
            final(self).options == old(self).options,
            final(self).store.reliable() == old(self).store.reliable(),
            backend_fault(r) ==> !old(self).store.reliable(),
            !not_text(r),
            old(self)@.inv() && !backend_fault(r) ==> {
                let out = list_pop_spec(
                    old(self)@,
                    old(self).options.delete_meta_when_empty,
                    key.spec_bytes(),
                    false,
                );
                &&& final(self)@ == out.state
                &&& final(self)@.inv()
                &&& match r {
                    Ok(item) => out.result == Some(value_view(item)),
                    Err(_) => out.result is None,
                }
            },
    {
        self.list_pop(key.as_bytes(), false)
    }

    /// Pushes at the left end or the right.
    fn list_push(&mut self, name: &[u8], value: &[u8], left: bool) -> (r: Result<u64, Error>)
        ensures
            final(self).options == old(self).options,
            final(self).store.reliable() == old(self).store.reliable(),
            backend_fault(r) ==> !old(self).store.reliable(),
            !not_text(r),
            old(self)@.inv() && !backend_fault(r) ==> {
                let out = list_push_spec(old(self)@, name@, value@, left);
                &&& final(self)@ == out.state
                &&& final(self)@.inv()
                &&& match r {
                    Ok(n) => out.result == Some(n),
                    Err(_) => out.result is None,
                }
            },
    {
        let ghost pre = self@;
        proof {
            if pre.inv() {
                lemma_resolve(pre, name@, KeyType::ListKey);
            }
        }
        let mut meta = self.get_or_create_meta(name, KeyType::ListKey)?;
        let ghost mid = self@;
        let ghost m = meta@;
        match meta.key_type {
            KeyType::ListKey => {},
            _ => {
                return Err(Error::message("the key holds a collection of another type"));
            },
        }
        if meta.extra.len() != 16 {
            return Err(Error::message("the metadata record cannot be read"));
        }
        let (left_end, right_end) = meta.decode_list_extra();
        if meta.count == u64::MAX || (left && left_end == i64::MIN) || (!left && right_end
            == i64::MAX) {
            return Err(Error::message("the list cannot take more items at this end"));
        }
        let position = if left {
            left_end
        } else {
            right_end
        };
        let full_key = encode_data_key_list_item(meta.id, position);
        match self.store.put(full_key.as_slice(), value) {
            Ok(()) => {},
            Err(e) => {
                return Err(Error::Backend(e));
            },
        }
        if left {
            meta.encode_list_extra(left_end - 1, right_end);
        } else {
            meta.encode_list_extra(left_end, right_end + 1);
        }
        meta.count = meta.count + 1;
        self.save_meta(name, &meta, false)?;
        proof {
            if pre.inv() {
                let s = mid.records;
                let c = collection(s, m.id);
                assert(meta_ok(s, name@, mid.next_key_id));
                lemma_collection_finite(s, m.id);
                lemma_list_push(c, m, value@, left);
                lemma_list_key(m.id, position);
                lemma_collection_insert(s, m.id, full_key@, value@);
                assert(meta@ == after_push(m, left));
                lemma_update_collection(
                    s,
                    mid.next_key_id,
                    name@,
                    s.insert(full_key@, value@),
                    meta@,
                    false,
                );
            }
        }
        Ok(meta.count)
    }

    /// Pops from the left end or the right.
    fn list_pop(&mut self, name: &[u8], left: bool) -> (r: Result<Option<Vec<u8>>, Error>)
        ensures
            final(self).options == old(self).options,
            final(self).store.reliable() == old(self).store.reliable(),
            backend_fault(r) ==> !old(self).store.reliable(),
            !not_text(r),
            old(self)@.inv() && !backend_fault(r) ==> {
                let out = list_pop_spec(
                    old(self)@,
                    old(self).options.delete_meta_when_empty,
                    name@,
                    left,
                );
                &&& final(self)@ == out.state
                &&& final(self)@.inv()
                &&& match r {
                    Ok(item) => out.result == Some(value_view(item)),
                    Err(_) => out.result is None,
                }
            },
    {
        let ghost pre = self@;
        let mut meta = match self.get_meta(name)? {
            None => {
                return Ok(None);
            },
            Some(meta) => meta,
        };
        let ghost m = meta@;
        let ghost s = pre.records;
        let ghost c = collection(s, m.id);
        match meta.key_type {
            KeyType::ListKey => {},
            _ => {
                return Err(Error::message("the key holds a collection of another type"));
            },
        }
        let (left_end, right_end) = meta.decode_list_extra();
        proof {
            if pre.inv() {
                assert(meta_ok(s, name@, pre.next_key_id));
            }
        }
        if left_end == i64::MAX || right_end == i64::MIN {
            return Err(Error::message("the metadata record cannot be read"));
        }
        let position = if left {
            left_end + 1
        } else {
            right_end - 1
        };
        let full_key = encode_data_key_list_item(meta.id, position);
        let value = match self.store.get(full_key.as_slice()) {
            Ok(None) => {
                return Ok(None);
            },
            Ok(Some(value)) => value,
            Err(e) => {
                return Err(Error::Backend(e));
            },
        };
        proof {
            if pre.inv() {
                lemma_collection_finite(s, m.id);
                lemma_list_key(m.id, position);
                assert(c.contains_key(full_key@));
                lemma_list_pop(c, m, left);
            }
        }
        if meta.count == 0 {
            return Err(Error::message("the count does not match the records"));
        }
        if left {
            meta.encode_list_extra(left_end + 1, right_end);
        } else {
            meta.encode_list_extra(left_end, right_end - 1);
        }
        meta.count = meta.count - 1;
        self.save_meta(name, &meta, true)?;
        match self.store.delete(full_key.as_slice()) {
            Ok(()) => {},
            Err(e) => {
                return Err(Error::Backend(e));
            },
        }
        proof {
            if pre.inv() {
                let drop_if_empty = self.options.delete_meta_when_empty;
                lemma_meta_key(name@);
                lemma_collection_remove(s, m.id, full_key@);
                assert(meta@ == after_list_pop(m, left));
                assert(saved(s, name@, meta@, drop_if_empty).remove(full_key@) =~= saved(
                    s.remove(full_key@),
                    name@,
                    meta@,
                    drop_if_empty,
                ));
                lemma_update_collection(
                    s,
                    pre.next_key_id,
                    name@,
                    s.remove(full_key@),
                    meta@,
                    drop_if_empty,
                );
            }
        }
        Ok(Some(value))
    }
}

} // verus!
