//! Sorted lists: items kept in the order of their scores, items of one score
//! in the order in which they came.
//!
//! The key of an item is the score followed by a sequence number that grows
//! with every insertion. Either end can be popped; the store is asked to
//! compact the popped range of an end each time a set number of items has
//! left through it.

use vstd::prelude::*;
use vstd::slice::slice_to_vec;
use vstd::string::StringSliceAdditionalSpecFns;
use crate::bigendian::{be_bytes, lemma_be_len, lemma_be_value_of_bytes, lemma_pow256_values};
use crate::codec::{
    data_prefix, data_range_end, decode_data_key_sorted_list_item, encode_data_key_sorted_list_item,
    encode_data_prefix, encode_data_range_end, sorted_list_item_key, sorted_list_score_of,
};
use crate::database::Database;
use crate::error::{backend_fault, not_text, rejected, Error};
use crate::lex::{compare_score_bytes, has_prefix, lex_lt};
use crate::meta::{lemma_sorted_list_extra, sorted_list_extra, KeyType, MetaView};
use crate::model::{
    collection, collection_ok, greatest_key, in_collection, is_empty, least_key,
    lemma_collection_insert, lemma_collection_remove, lemma_data_prefix, lemma_first_of_collection,
    lemma_greatest_key, lemma_last_of_collection, lemma_least_key, lemma_resolve,
    lemma_update_collection, meta_at, resolve, saved, sequence_of, DbView, Outcome,
};
use crate::store::{record_view, Contents, KvStore, Record};

verus! {

/// The count of popped items after one more pop, and whether the store is to
/// be asked to compact: it is each time the count reaches a multiple of
/// `threshold`, after which the count starts again from zero.
pub open spec fn next_deleted(deleted: u32, threshold: u32) -> (u32, bool) {
    if threshold > 0 && (deleted + 1) % (threshold as int) == 0 {
        (0u32, true)
    } else if deleted == u32::MAX {
        (0u32, false)
    } else {
        ((deleted + 1) as u32, false)
    }
}

/// The record of a sorted list after it lost one item and its counts of
/// popped items became `left` and `right`.
pub open spec fn after_pop(m: MetaView, left: u32, right: u32) -> MetaView {
    m.with_count((m.count - 1) as u64).with_extra(sorted_list_extra(m.sequence(), left, right))
}

/// The record of a sorted list after it gained one item.
pub open spec fn after_add(m: MetaView) -> MetaView {
    m.with_count((m.count + 1) as u64).with_extra(
        sorted_list_extra((m.sequence() + 1) as u64, m.left_deleted(), m.right_deleted()),
    )
}

/// Adds `value` with `score`. Hands back the new count. Turned down when the
/// key holds another type of collection or a counter is at its limit.
pub open spec fn sorted_list_add_spec(
    pre: DbView,
    name: Seq<u8>,
    score: Seq<u8>,
    value: Seq<u8>,
) -> Outcome<u64> {
    let r = resolve(pre, name, KeyType::SortedListKey);
    match r.result {
        None => Outcome { state: r.state, result: None },
        Some(m) => if m.key_type != KeyType::SortedListKey || m.count == u64::MAX || m.sequence()
            == u64::MAX {
            Outcome { state: r.state, result: None }
        } else {
            Outcome {
                state: r.state.with_records(
                    saved(
                        r.state.records.insert(
                            sorted_list_item_key(m.id, score, m.sequence()),
                            value,
                        ),
                        name,
                        after_add(m),
                        false,
                    ),
                ),
                result: Some((m.count + 1) as u64),
            }
        },
    }
}

/// Takes the record with key `k` out of the sorted list of `name`, through
/// the left end or the right.
pub open spec fn sorted_list_take(
    pre: DbView,
    threshold: u32,
    drop_if_empty: bool,
    name: Seq<u8>,
    m: MetaView,
    k: Seq<u8>,
    left: bool,
) -> DbView {
    let bumped = next_deleted(
        if left {
            m.left_deleted()
        } else {
            m.right_deleted()
        },
        threshold,
    );
    let m2 = if left {
        after_pop(m, bumped.0, m.right_deleted())
    } else {
        after_pop(m, m.left_deleted(), bumped.0)
    };
    let base = if !bumped.1 {
        pre
    } else if left {
        pre.with_compaction(data_prefix(m.id), k)
    } else {
        pre.with_compaction(k, data_range_end(m.id))
    };
    base.with_records(saved(pre.records.remove(k), name, m2, drop_if_empty))
}

/// Pops the item with the least key, unless its score is above `max_score`.
/// Nothing is popped, and nothing changes, when the key is not in use, the
/// list is empty, or the score is too high. Turned down when the key holds
/// another type of collection.
pub open spec fn sorted_list_left_pop_spec(
    pre: DbView,
    threshold: u32,
    drop_if_empty: bool,
    name: Seq<u8>,
    max_score: Option<Seq<u8>>,
) -> Outcome<Option<Record>> {
    match meta_at(pre.records, name) {
        None => Outcome { state: pre, result: Some(None) },
        Some(m) => {
            let c = collection(pre.records, m.id);
            let k = least_key(c);
            if m.key_type != KeyType::SortedListKey {
                Outcome { state: pre, result: None }
            } else if is_empty(c) || (max_score matches Some(max) && lex_lt(
                max,
                sorted_list_score_of(k),
            )) {
                Outcome { state: pre, result: Some(None) }
            } else {
                Outcome {
                    state: sorted_list_take(pre, threshold, drop_if_empty, name, m, k, true),
                    result: Some(Some((sorted_list_score_of(k), c[k]))),
                }
            }
        },
    }
}

/// Pops the item with the greatest key, unless its score is below
/// `min_score`. The mirror image of the left pop.
pub open spec fn sorted_list_right_pop_spec(
    pre: DbView,
    threshold: u32,
    drop_if_empty: bool,
    name: Seq<u8>,
    min_score: Option<Seq<u8>>,
) -> Outcome<Option<Record>> {
    match meta_at(pre.records, name) {
        None => Outcome { state: pre, result: Some(None) },
        Some(m) => {
            let c = collection(pre.records, m.id);
            let k = greatest_key(c);
            if m.key_type != KeyType::SortedListKey {
                Outcome { state: pre, result: None }
            } else if is_empty(c) || (min_score matches Some(min) && lex_lt(
                sorted_list_score_of(k),
                min,
            )) {
                Outcome { state: pre, result: Some(None) }
            } else {
                Outcome {
                    state: sorted_list_take(pre, threshold, drop_if_empty, name, m, k, false),
                    result: Some(Some((sorted_list_score_of(k), c[k]))),
                }
            }
        },
    }
}

/// The key of a sorted-list item ends in its sequence number.
pub proof fn lemma_sorted_list_key(id: u64, score: Seq<u8>, sequence: u64)
    ensures
        in_collection(id, sorted_list_item_key(id, score, sequence)),
        sorted_list_item_key(id, score, sequence).len() == 18 + score.len(),
        sequence_of(sorted_list_item_key(id, score, sequence)) == sequence,
        sorted_list_score_of(sorted_list_item_key(id, score, sequence)) == score,
{
    let k = sorted_list_item_key(id, score, sequence);
    lemma_data_prefix(id);
    lemma_be_len(sequence as nat, 8);
    lemma_pow256_values();
    lemma_be_value_of_bytes(sequence as nat, 8);
    assert(k.subrange(0, 10) =~= data_prefix(id));
    assert(k.subrange(k.len() - 8, k.len() as int) =~= be_bytes(sequence as nat, 8));
    assert(k.subrange(10, k.len() - 8) =~= score);
}

/// A sorted list that loses one of its records stays in order under a count
/// one less.
pub proof fn lemma_sorted_list_take(c: Contents, m: MetaView, k: Seq<u8>, left: u32, right: u32)
    requires
        m.key_type == KeyType::SortedListKey,
        collection_ok(c, m),
        c.dom().finite(),
        c.contains_key(k),
    ensures
        m.count >= 1,
        collection_ok(c.remove(k), after_pop(m, left, right)),
{
    lemma_sorted_list_extra(m.sequence(), left, right);
    assert(c.remove(k).dom() =~= c.dom().remove(k));
}

/// A sorted list that gains a record under its next sequence number stays in
/// order under a count one more.
pub proof fn lemma_sorted_list_put(c: Contents, m: MetaView, score: Seq<u8>, value: Seq<u8>)
    requires
        m.key_type == KeyType::SortedListKey,
        collection_ok(c, m),
        c.dom().finite(),
        m.count < u64::MAX,
        m.sequence() < u64::MAX,
    ensures
        !c.contains_key(sorted_list_item_key(m.id, score, m.sequence())),
        collection_ok(
            c.insert(sorted_list_item_key(m.id, score, m.sequence()), value),
            after_add(m),
        ),
{
    let k = sorted_list_item_key(m.id, score, m.sequence());
    lemma_sorted_list_key(m.id, score, m.sequence());
    lemma_sorted_list_extra((m.sequence() + 1) as u64, m.left_deleted(), m.right_deleted());
    assert(c.insert(k, value).dom() =~= c.dom().insert(k));
}

/// The count of popped items after one more pop, and whether to compact.
pub fn bump_deleted(deleted: u32, threshold: u32) -> (r: (u32, bool))
    ensures
        r == next_deleted(deleted, threshold),
{
    let bumped: u64 = deleted as u64 + 1;
    if threshold > 0 && bumped % (threshold as u64) == 0 {
        (0, true)
    } else if deleted == u32::MAX {
        (0, false)
    } else {
        (deleted + 1, false)
    }
}

impl<S: KvStore> Database<S> {
    /// The number of items in the sorted list of `key`.
    pub fn sorted_list_count(&self, key: &str) -> (r: Result<u64, Error>)
        ensures
            backend_fault(r) ==> !self.store.reliable(),
            !not_text(r),
            self@.inv() ==> !rejected(r),
            r matches Ok(n) ==> n == crate::database::count_of(self@.records, key.spec_bytes()),
    {
        self.get_count(key.as_bytes())
    }

    /// Adds an item to the sorted list of `key` and hands back the new count.
    pub fn sorted_list_add(&mut self, key: &str, score: &[u8], value: &[u8]) -> (r: Result<
        u64,
        Error,
    >)
        ensures
            final(self).options == old(self).options,
            final(self).store.reliable() == old(self).store.reliable(),
            backend_fault(r) ==> !old(self).store.reliable(),
            !not_text(r),
            old(self)@.inv() && !backend_fault(r) ==> {
                let out = sorted_list_add_spec(old(self)@, key.spec_bytes(), score@, value@);
                &&& final(self)@ == out.state
                &&& final(self)@.inv()
                &&& match r {
                    Ok(n) => out.result == Some(n),
                    Err(_) => out.result is None,
                }
            },
    {
        let name = key.as_bytes();
        let ghost pre = self@;
        proof {
            if pre.inv() {
                lemma_resolve(pre, name@, KeyType::SortedListKey);
            }
        }
        let mut meta = self.get_or_create_meta(name, KeyType::SortedListKey)?;
        let ghost mid = self@;
        let ghost m = meta@;
        match meta.key_type {
            KeyType::SortedListKey => {},
            _ => {
                return Err(Error::message("the key holds a collection of another type"));
            },
        }
        if meta.extra.len() != 16 {
            return Err(Error::message("the metadata record cannot be read"));
        }
        let (sequence, left_deleted, right_deleted) = meta.decode_sorted_list_extra();
        if meta.count == u64::MAX || sequence == u64::MAX {
            return Err(Error::message("the sorted list cannot take more items"));
        }
        let full_key = encode_data_key_sorted_list_item(meta.id, score, sequence);
        meta.encode_sorted_list_extra(sequence + 1, left_deleted, right_deleted);
        meta.count = meta.count + 1;
        match self.store.put(full_key.as_slice(), value) {
            Ok(()) => {},
            Err(e) => {
                return Err(Error::Backend(e));
            },
        }
        self.save_meta(name, &meta, false)?;
        proof {
            if pre.inv() {
                let s = mid.records;
                let c = collection(s, m.id);
                crate::model::lemma_collection_finite(s, m.id);
                lemma_sorted_list_put(c, m, score@, value@);
                lemma_sorted_list_key(m.id, score@, sequence);
                lemma_collection_insert(s, m.id, full_key@, value@);
                lemma_update_collection(
                    s,
                    mid.next_key_id,
                    name@,
                    s.insert(full_key@, value@),
                    after_add(m),
                    false,
                );
            }
        }
        Ok(meta.count)
    }

    /// Pops the item with the least score, the oldest among equals, unless
    /// that score is above `max_score`.
    pub fn sorted_list_left_pop(&mut self, key: &str, max_score: Option<&[u8]>) -> (r: Result<
        Option<(Vec<u8>, Vec<u8>)>,
        Error,
    >)
        ensures
            final(self).options == old(self).options,
            final(self).store.reliable() == old(self).store.reliable(),
            backend_fault(r) ==> !old(self).store.reliable(),
            !not_text(r),
            old(self)@.inv() && !backend_fault(r) ==> {
                let out = sorted_list_left_pop_spec(
                    old(self)@,
                    old(self).options.sorted_list_compact_deletes_count,
                    old(self).options.delete_meta_when_empty,
                    key.spec_bytes(),
                    bound_view(max_score),
                );
                &&& final(self)@ == out.state
                &&& final(self)@.inv()
                &&& match r {
                    Ok(item) => out.result == Some(record_view(item)),
                    Err(_) => out.result is None,
                }
            },
    {
        self.sorted_list_pop(key.as_bytes(), max_score, true)
    }

    /// Pops the item with the greatest score, the newest among equals, unless
    /// that score is below `min_score`.
    pub fn sorted_list_right_pop(&mut self, key: &str, min_score: Option<&[u8]>) -> (r: Result<
        Option<(Vec<u8>, Vec<u8>)>,
        Error,
    >)
        ensures
            final(self).options == old(self).options,
            final(self).store.reliable() == old(self).store.reliable(),
            backend_fault(r) ==> !old(self).store.reliable(),
            !not_text(r),
            old(self)@.inv() && !backend_fault(r) ==> {
                let out = sorted_list_right_pop_spec(
                    old(self)@,
                    old(self).options.sorted_list_compact_deletes_count,
                    old(self).options.delete_meta_when_empty,
                    key.spec_bytes(),
                    bound_view(min_score),
                );
                &&& final(self)@ == out.state
                &&& final(self)@.inv()
                &&& match r {
                    Ok(item) => out.result == Some(record_view(item)),
                    Err(_) => out.result is None,
                }
            },
    {
        self.sorted_list_pop(key.as_bytes(), min_score, false)
    }

    /// Pops through the left end or the right.
    fn sorted_list_pop(&mut self, name: &[u8], bound: Option<&[u8]>, left: bool) -> (r: Result<
        Option<(Vec<u8>, Vec<u8>)>,
        Error,
    >)
        ensures
            final(self).options == old(self).options,
            final(self).store.reliable() == old(self).store.reliable(),
            backend_fault(r) ==> !old(self).store.reliable(),
            !not_text(r),
            old(self)@.inv() && !backend_fault(r) ==> {
                let out = if left {
                    sorted_list_left_pop_spec(
                        old(self)@,
                        old(self).options.sorted_list_compact_deletes_count,
                        old(self).options.delete_meta_when_empty,
                        name@,
                        bound_view(bound),
                    )
                } else {
                    sorted_list_right_pop_spec(
                        old(self)@,
                        old(self).options.sorted_list_compact_deletes_count,
                        old(self).options.delete_meta_when_empty,
                        name@,
                        bound_view(bound),
                    )
                };
                &&& final(self)@ == out.state
                &&& final(self)@.inv()
                &&& match r {
                    Ok(item) => out.result == Some(record_view(item)),
                    Err(_) => out.result is None,
                }
            },
    {
        let ghost pre = self@;
        let mut meta = match self.get_meta(name)? {
            None => {
                return Ok(None);
            },
            Some(meta) => meta,
        };
        let ghost m = meta@;
        let ghost c = collection(pre.records, m.id);
        match meta.key_type {
            KeyType::SortedListKey => {},
            _ => {
                return Err(Error::message("the key holds a collection of another type"));
            },
        }
        if meta.id == u64::MAX {
            return Err(Error::message("the metadata record cannot be read"));
        }
        let (sequence, left_deleted, right_deleted) = meta.decode_sorted_list_extra();
        let prefix = encode_data_prefix(meta.id);
        let end = encode_data_range_end(meta.id);
        let found = if left {
            self.store.first_at_or_after(prefix.as_slice())
        } else {
            self.store.last_before(end.as_slice())
        };
        let found = match found {
            Ok(found) => found,
            Err(e) => {
                return Err(Error::Backend(e));
            },
        };
        proof {
            if pre.inv() {
                assert(crate::model::meta_ok(pre.records, name@, pre.next_key_id));
                if left {
                    lemma_first_of_collection(pre.records, m.id, record_view(found));
                } else {
                    lemma_last_of_collection(
                        pre.records,
                        pre.next_key_id,
                        m.id,
                        record_view(found),
                    );
                }
            }
        }
        let (k, v) = match found {
            None => {
                return Ok(None);
            },
            Some(record) => record,
        };
        if !has_prefix(prefix.as_slice(), k.as_slice()) {
            return Ok(None);
        }
        proof {
            if pre.inv() {
                if left {
                    lemma_least_key(c, k@);
                } else {
                    lemma_greatest_key(c, k@);
                }
            }
        }
        let score = decode_data_key_sorted_list_item(k.as_slice());
        match bound {
            Some(limit) => {
                let order = compare_score_bytes(score, limit);
                if (left && order > 0) || (!left && order < 0) {
                    return Ok(None);
                }
            },
            None => {},
        }
        if meta.count == 0 {
            proof {
                if pre.inv() {
                    crate::model::lemma_collection_finite(pre.records, m.id);
                    lemma_sorted_list_take(c, m, k@, 0, 0);
                }
            }
            return Err(Error::message("the count does not match the records"));
        }
        match self.store.delete(k.as_slice()) {
            Ok(()) => {},
            Err(e) => {
                return Err(Error::Backend(e));
            },
        }
        meta.count = meta.count - 1;
        let threshold = self.options.sorted_list_compact_deletes_count;
        if left {
            let (deleted, compact) = bump_deleted(left_deleted, threshold);
            if compact {
                self.store.compact_range(prefix.as_slice(), k.as_slice());
            }
            meta.encode_sorted_list_extra(sequence, deleted, right_deleted);
            proof {
                lemma_sorted_list_extra(sequence, deleted, right_deleted);
            }
        } else {
            let (deleted, compact) = bump_deleted(right_deleted, threshold);
            if compact {
                self.store.compact_range(k.as_slice(), end.as_slice());
            }
            meta.encode_sorted_list_extra(sequence, left_deleted, deleted);
            proof {
                lemma_sorted_list_extra(sequence, left_deleted, deleted);
            }
        }
        self.save_meta(name, &meta, true)?;
        proof {
            if pre.inv() {
                let s = pre.records;
                crate::model::lemma_collection_finite(s, m.id);
                lemma_collection_remove(s, m.id, k@);
                lemma_sorted_list_take(c, m, k@, meta@.left_deleted(), meta@.right_deleted());
                assert(meta@ == after_pop(m, meta@.left_deleted(), meta@.right_deleted()));
                lemma_update_collection(
                    s,
                    pre.next_key_id,
                    name@,
                    s.remove(k@),
                    meta@,
                    self.options.delete_meta_when_empty,
                );
            }
        }
        Ok(Some((slice_to_vec(score), v)))
    }
}

/// The mathematical content of a bound on scores that may be missing.
pub open spec fn bound_view(bound: Option<&[u8]>) -> Option<Seq<u8>> {
    match bound {
        Some(b) => Some(b@),
        None => None,
    }
}

} // verus!
