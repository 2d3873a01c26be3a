//! What holds of every consistent database, and of operations in sequence.
//!
//! Each operation of the database is tied by its contract to a function of
//! `model` or of its own module that says what it leaves behind. The laws
//! here are stated and proved over those functions.

use vstd::prelude::*;
use crate::bigendian::{be_bytes, lemma_be_bytes_of_value, lemma_be_order, lemma_pow256_values};
use crate::browse::walk_prefix;
use crate::codec::{
    data_prefix, filler, item_key, list_item_key, meta_key, sorted_list_item_key,
    sorted_list_score_of, sorted_set_forward_key, sorted_set_pair_of, sorted_set_prefix,
    sorted_set_reverse_key,
};
use crate::database::count_of;
use crate::each::shows;
use crate::lex::{
    lemma_lex_asymmetric, lemma_lex_concat, lemma_lex_extend_apart, lemma_lex_irreflexive,
    lemma_lex_total, lex_le, lex_lt,
};
use crate::list::{list_pop_spec, pop_position};
use crate::map_set::{
    lemma_plain_put, lemma_plain_put_new, lemma_plain_take, plain_delete_spec, plain_get_spec,
    plain_put_spec, set_is_member_spec,
};
use crate::meta::{
    fresh_meta, lemma_fresh_meta_wf, lemma_parse_encode, lemma_sorted_set_extra, KeyType, MetaView,
};
use crate::model::{
    collection, forward_is_owned, forward_keys, forward_record_ok, greatest_key, in_collection,
    is_empty, least_key, lemma_collection_finite, lemma_collection_insert, lemma_collection_remove,
    lemma_data_prefix, lemma_greatest_exists, lemma_in_collection, lemma_item_key,
    lemma_least_exists, lemma_meta_key, lemma_resolve, lemma_unused_id_empty,
    lemma_update_collection, meta_at, meta_ok, position_of, resolve, reverse_keys,
    reverse_record_ok, sequence_of, sorted_set_sound, DbView,
};
use crate::scan::{is_full_run, law_full_run_exists, lemma_full_run_unique, listed};
use crate::sorted_list::{
    lemma_sorted_list_key, sorted_list_add_spec, sorted_list_left_pop_spec,
    sorted_list_right_pop_spec,
};
use crate::sorted_set::{
    lemma_sorted_set_key_parts, lemma_sorted_set_keys, lemma_sorted_set_move, lemma_sorted_set_put,
    lemma_sorted_set_take, lemma_sound_move, lemma_sound_put, lemma_sound_take, sorted_set_add_spec,
    sorted_set_delete_spec, sorted_set_is_member_spec,
};
use crate::sorted_set_range::{
    forward_records, is_sorted_set_left, is_sorted_set_right, lemma_score_order, Scored,
};
use crate::store::{lookup, Contents, Record};

verus! {

/// A store without records is consistent, whatever the next id.
pub proof fn law_empty_store_is_consistent(next_key_id: u64)
    ensures
        crate::model::store_inv(Map::<Seq<u8>, Seq<u8>>::empty(), next_key_id),
{
}

/// The count of a collection is the number of its records. Of a sorted set
/// it is the number of reverse records, one for each member; forward and
/// reverse records make up all its records; and in a sound set, as every set
/// without a stored length is, the count is the number of forward records
/// too.
pub proof fn law_count_is_number_of_records(db: DbView, name: Seq<u8>)
    requires
        db.inv(),
        meta_at(db.records, name) is Some,
    ensures
        ({
            let m = meta_at(db.records, name).unwrap();
            let c = collection(db.records, m.id);
            &&& c.dom().finite()
            &&& m.key_type != KeyType::SortedSetKey ==> m.count == c.dom().len()
            &&& m.key_type == KeyType::SortedSetKey ==> {
                &&& m.count == reverse_keys(c).len()
                &&& c.dom() == forward_keys(c).union(reverse_keys(c))
                &&& m.score_len() == 0 ==> sorted_set_sound(c, m)
                &&& sorted_set_sound(c, m) ==> m.count == forward_keys(c).len()
            }
        }),
{
    let m = meta_at(db.records, name).unwrap();
    let c = collection(db.records, m.id);
    lemma_collection_finite(db.records, m.id);
    assert(meta_ok(db.records, name, db.next_key_id));
    if m.key_type == KeyType::SortedSetKey {
        assert(c.dom() =~= forward_keys(c).union(reverse_keys(c)));
    }
}

/// The items of a list fill exactly the positions strictly between its two
/// ends, and their number is the count.
pub proof fn law_list_positions(db: DbView, name: Seq<u8>)
    requires
        db.inv(),
        meta_at(db.records, name) is Some,
        meta_at(db.records, name).unwrap().key_type == KeyType::ListKey,
    ensures
        ({
            let m = meta_at(db.records, name).unwrap();
            let c = collection(db.records, m.id);
            &&& m.count == m.list_right() - m.list_left() - 1
            &&& forall|k: Seq<u8>| #[trigger]
                c.contains_key(k) ==> m.list_left() < position_of(k) < m.list_right() && k
                    == list_item_key(m.id, position_of(k))
            &&& forall|p: i64|
                m.list_left() < p < m.list_right() ==> c.contains_key(
                    #[trigger] list_item_key(m.id, p),
                )
        }),
{
    let m = meta_at(db.records, name).unwrap();
    let c = collection(db.records, m.id);
    assert(meta_ok(db.records, name, db.next_key_id));
    assert forall|k: Seq<u8>| #[trigger] c.contains_key(k) implies k == list_item_key(
        m.id,
        position_of(k),
    ) by {
        crate::list::lemma_list_key_of(m.id, k);
    }
}

/// A member of a sound sorted set has one reverse record, which holds its
/// score, and one forward record, which is the one of that score and the
/// member.
pub proof fn law_sorted_set_member_records(db: DbView, name: Seq<u8>, value: Seq<u8>)
    requires
        db.inv(),
        meta_at(db.records, name) is Some,
        meta_at(db.records, name).unwrap().key_type == KeyType::SortedSetKey,
        sorted_set_sound(
            collection(db.records, meta_at(db.records, name).unwrap().id),
            meta_at(db.records, name).unwrap(),
        ),
        db.records.contains_key(
            sorted_set_reverse_key(meta_at(db.records, name).unwrap().id, value),
        ),
    ensures
        ({
            let m = meta_at(db.records, name).unwrap();
            let c = collection(db.records, m.id);
            let score = db.records[sorted_set_reverse_key(m.id, value)];
            &&& score.len() == m.score_len()
            &&& db.records.contains_key(sorted_set_forward_key(m.id, score, value))
            &&& forall|k: Seq<u8>| #[trigger]
                c.contains_key(k) && k[10] == crate::codec::forward_tag() && sorted_set_pair_of(
                    k,
                    m.score_len(),
                ).1 == value ==> k == sorted_set_forward_key(m.id, score, value)
        }),
{
    let m = meta_at(db.records, name).unwrap();
    let c = collection(db.records, m.id);
    let reverse = sorted_set_reverse_key(m.id, value);
    lemma_sorted_set_keys(m.id, Seq::empty(), value);
    assert(c.contains_key(reverse));
    assert(reverse_record_ok(c, m, reverse));
    assert forall|k: Seq<u8>| #[trigger]
        c.contains_key(k) && k[10] == crate::codec::forward_tag() && sorted_set_pair_of(
            k,
            m.score_len(),
        ).1 == value implies k == sorted_set_forward_key(m.id, db.records[reverse], value) by {
        assert(forward_record_ok(c, m, k));
        lemma_sorted_set_key_parts(m.id, k, m.score_len());
    }
}

/// A member of a sorted set, sound or not, has one reverse record, and the
/// score in it is empty or has the stored length.
pub proof fn law_sorted_set_member_score(db: DbView, name: Seq<u8>, value: Seq<u8>)
    requires
        db.inv(),
        meta_at(db.records, name) is Some,
        meta_at(db.records, name).unwrap().key_type == KeyType::SortedSetKey,
        db.records.contains_key(
            sorted_set_reverse_key(meta_at(db.records, name).unwrap().id, value),
        ),
    ensures
        ({
            let m = meta_at(db.records, name).unwrap();
            let score = db.records[sorted_set_reverse_key(m.id, value)];
            score.len() == 0 || score.len() == m.score_len()
        }),
{
    let m = meta_at(db.records, name).unwrap();
    let c = collection(db.records, m.id);
    let reverse = sorted_set_reverse_key(m.id, value);
    assert(meta_ok(db.records, name, db.next_key_id));
    lemma_sorted_set_keys(m.id, Seq::empty(), value);
    assert(c.contains_key(reverse));
}

/// A forward record of a sorted set is the one of a member: of the member
/// that follows the tag, under the empty score, or of the member that
/// follows a score of the stored length. In a sound set it is the second,
/// and the member's reverse record holds the score that the key carries.
pub proof fn law_sorted_set_forward_record(db: DbView, name: Seq<u8>, k: Seq<u8>)
    requires
        db.inv(),
        meta_at(db.records, name) is Some,
        meta_at(db.records, name).unwrap().key_type == KeyType::SortedSetKey,
        db.records.contains_key(k),
        in_collection(meta_at(db.records, name).unwrap().id, k),
        k[10] == crate::codec::forward_tag(),
    ensures
        ({
            let m = meta_at(db.records, name).unwrap();
            let c = collection(db.records, m.id);
            let pair = sorted_set_pair_of(k, m.score_len());
            &&& forward_is_owned(c, m, k)
            &&& sorted_set_sound(c, m) ==> k == sorted_set_forward_key(m.id, pair.0, pair.1)
                && lookup(db.records, sorted_set_reverse_key(m.id, pair.1)) == Some(pair.0)
        }),
{
    let m = meta_at(db.records, name).unwrap();
    let c = collection(db.records, m.id);
    assert(meta_ok(db.records, name, db.next_key_id));
    assert(c.contains_key(k));
    if sorted_set_sound(c, m) {
        assert(forward_record_ok(c, m, k));
        lemma_sorted_set_key_parts(m.id, k, m.score_len());
    }
}

/// No two logical keys in use have the same id, and every id in use is
/// below the next id.
pub proof fn law_ids_are_distinct(db: DbView, a: Seq<u8>, b: Seq<u8>)
    requires
        db.inv(),
        meta_at(db.records, a) is Some,
        meta_at(db.records, b) is Some,
        a != b,
    ensures
        meta_at(db.records, a).unwrap().id != meta_at(db.records, b).unwrap().id,
        meta_at(db.records, a).unwrap().id < db.next_key_id,
{
    assert(db.records.contains_key(meta_key(a)) && db.records.contains_key(meta_key(b)));
    assert(meta_ok(db.records, a, db.next_key_id));
}

/// A logical key that comes into use gets the next id, which is above every
/// id in use, and the next id grows by one.
pub proof fn law_new_key_gets_next_id(db: DbView, name: Seq<u8>, t: KeyType, other: Seq<u8>)
    requires
        db.inv(),
        meta_at(db.records, name) is None,
        db.next_key_id < u64::MAX,
        meta_at(db.records, other) is Some,
    ensures
        resolve(db, name, t).result is Some,
        resolve(db, name, t).result.unwrap().id == db.next_key_id,
        resolve(db, name, t).state.next_key_id == db.next_key_id + 1,
        meta_at(db.records, other).unwrap().id < db.next_key_id,
{
    assert(db.records.contains_key(meta_key(other)));
    assert(meta_ok(db.records, other, db.next_key_id));
}

/// A value put into a map is the value that a get of the same field gives.
pub proof fn law_map_get_after_put(db: DbView, key: Seq<u8>, field: Seq<u8>, value: Seq<u8>)
    requires
        db.inv(),
        plain_put_spec(db, key, KeyType::MapKey, field, value, true).result is Some,
    ensures
        plain_get_spec(
            plain_put_spec(db, key, KeyType::MapKey, field, value, true).state.records,
            key,
            KeyType::MapKey,
            field,
        ) == Some(Some(value)),
{
    lemma_put_outcome(db, key, KeyType::MapKey, field, value, true);
}

/// A second put of the same field leaves the count as the first put left
/// it.
pub proof fn law_map_put_twice_keeps_count(
    db: DbView,
    key: Seq<u8>,
    field: Seq<u8>,
    first: Seq<u8>,
    second: Seq<u8>,
)
    requires
        db.inv(),
        plain_put_spec(db, key, KeyType::MapKey, field, first, true).result is Some,
    ensures
        ({
            let once = plain_put_spec(db, key, KeyType::MapKey, field, first, true).state;
            let twice = plain_put_spec(once, key, KeyType::MapKey, field, second, true);
            &&& twice.result == Some(false)
            &&& count_of(twice.state.records, key) == count_of(once.records, key)
        }),
{
    lemma_put_outcome(db, key, KeyType::MapKey, field, first, true);
    let once = plain_put_spec(db, key, KeyType::MapKey, field, first, true).state;
    lemma_put_outcome(once, key, KeyType::MapKey, field, second, true);
}

/// Adding a value to a set that does not have it says that it is new and
/// raises the count by one; adding it again says that it is not and leaves
/// the count. A set that was not in use counts one afterwards.
pub proof fn law_set_add_twice(db: DbView, key: Seq<u8>, value: Seq<u8>)
    requires
        db.inv(),
        set_is_member_spec(db.records, key, value) == Some(false),
        plain_put_spec(db, key, KeyType::SetKey, value, filler(), false).result is Some,
    ensures
        ({
            let once = plain_put_spec(db, key, KeyType::SetKey, value, filler(), false);
            let twice = plain_put_spec(once.state, key, KeyType::SetKey, value, filler(), false);
            &&& once.result == Some(true)
            &&& twice.result == Some(false)
            &&& count_of(once.state.records, key) == count_of(db.records, key) + 1
            &&& count_of(twice.state.records, key) == count_of(once.state.records, key)
            &&& set_is_member_spec(twice.state.records, key, value) == Some(true)
        }),
{
    let t = KeyType::SetKey;
    let once = plain_put_spec(db, key, t, value, filler(), false);
    lemma_put_outcome(db, key, t, value, filler(), false);
    lemma_put_is_new(db, key, t, value);
    let m = resolve(db, key, t).result.unwrap();
    assert(once.result == Some(true));
    assert(meta_at(once.state.records, key) == Some(m.with_count((m.count + 1) as u64)));
    assert(count_of(once.state.records, key) == count_of(db.records, key) + 1);
    lemma_resolve(once.state, key, t);
    assert(resolve(once.state, key, t).state == once.state);
    let twice = plain_put_spec(once.state, key, t, value, filler(), false);
    assert(twice.result is Some);
    lemma_put_outcome(once.state, key, t, value, filler(), false);
}

/// A put into a plain collection writes a new record exactly when a get of
/// the same field or member finds nothing; a key that was not in use then
/// gets a record that counts nothing.
pub proof fn lemma_put_is_new(db: DbView, key: Seq<u8>, t: KeyType, tail: Seq<u8>)
    requires
        db.inv(),
        crate::map_set::is_plain(t),
        resolve(db, key, t).result is Some,
        resolve(db, key, t).result.unwrap().key_type == t,
    ensures
        ({
            let before = resolve(db, key, t);
            let m = before.result.unwrap();
            &&& before.state.records.contains_key(item_key(m.id, tail)) <==> plain_get_spec(
                db.records,
                key,
                t,
                tail,
            ) != Some(None::<Seq<u8>>)
            &&& m.count == count_of(db.records, key)
        }),
{
    let before = resolve(db, key, t);
    let m = before.result.unwrap();
    lemma_resolve(db, key, t);
    lemma_item_key(m.id, tail);
    lemma_meta_key(key);
    if meta_at(db.records, key) is None {
        lemma_unused_id_empty(db.records, db.next_key_id, m.id);
        assert(!collection(db.records, m.id).contains_key(item_key(m.id, tail)));
    }
}

/// Where empty metadata records are dropped, a value that is added to a set
/// not in use, deleted, and added again leaves the key with a greater id
/// than it had the first time, as long as ids are left.
pub proof fn law_set_used_again_gets_greater_id(db: DbView, key: Seq<u8>, value: Seq<u8>)
    requires
        db.inv(),
        meta_at(db.records, key) is None,
        db.next_key_id < u64::MAX - 1,
    ensures
        ({
            let once = plain_put_spec(db, key, KeyType::SetKey, value, filler(), false);
            let gone = plain_delete_spec(once.state, true, key, KeyType::SetKey, value);
            let again = plain_put_spec(gone.state, key, KeyType::SetKey, value, filler(), false);
            &&& once.result == Some(true)
            &&& gone.result == Some(true)
            &&& again.result == Some(true)
            &&& meta_at(once.state.records, key) is Some
            &&& meta_at(gone.state.records, key) is None
            &&& meta_at(again.state.records, key) is Some
            &&& meta_at(again.state.records, key).unwrap().id > meta_at(
                once.state.records,
                key,
            ).unwrap().id
        }),
{
    let t = KeyType::SetKey;
    let once = plain_put_spec(db, key, t, value, filler(), false);
    lemma_plain_put_new(db, key, t, value, filler(), false);
    let first = fresh_meta(db.next_key_id, t).with_count(1);
    let k = item_key(first.id, value);
    lemma_fresh_meta_wf(db.next_key_id, t);
    lemma_parse_encode(first);
    lemma_meta_key(key);
    lemma_item_key(first.id, value);
    let s1 = once.state.records;
    assert(meta_at(s1, key) == Some(first));
    assert(s1.contains_key(k));
    // The delete takes the one record and, with it, the metadata record.
    let gone = plain_delete_spec(once.state, true, key, t, value);
    let emptied = first.with_count(0);
    assert(meta_ok(s1, key, once.state.next_key_id));
    lemma_collection_finite(s1, first.id);
    lemma_plain_take(collection(s1, first.id), first, k);
    lemma_collection_remove(s1, first.id, k);
    lemma_update_collection(s1, once.state.next_key_id, key, s1.remove(k), emptied, true);
    assert(gone.state.inv());
    assert(meta_at(gone.state.records, key) is None);
    // The key comes into use again under the next id.
    lemma_plain_put_new(gone.state, key, t, value, filler(), false);
    let second = fresh_meta(gone.state.next_key_id, t).with_count(1);
    lemma_fresh_meta_wf(gone.state.next_key_id, t);
    lemma_parse_encode(second);
}

/// Where empty metadata records are dropped, of any set and any value that
/// can be added to it: the value can be deleted again; that leaves the key
/// out of use exactly when the value was the only member; the key can then
/// be used again exactly when an id is left; and it then has a greater id
/// than before.
pub proof fn law_set_emptied_gets_greater_id(db: DbView, key: Seq<u8>, value: Seq<u8>)
    requires
        db.inv(),
        plain_put_spec(db, key, KeyType::SetKey, value, filler(), false).result is Some,
    ensures
        ({
            let once = plain_put_spec(db, key, KeyType::SetKey, value, filler(), false);
            let gone = plain_delete_spec(once.state, true, key, KeyType::SetKey, value);
            let again = plain_put_spec(gone.state, key, KeyType::SetKey, value, filler(), false);
            let first = meta_at(once.state.records, key);
            &&& first is Some
            &&& first.unwrap().count >= 1
            &&& gone.result == Some(true)
            &&& gone.state.inv()
            &&& gone.state.next_key_id == once.state.next_key_id
            &&& meta_at(gone.state.records, key) is None <==> first.unwrap().count == 1
            &&& meta_at(db.records, key) is None ==> first.unwrap().count == 1
            &&& first.unwrap().count == 1 ==> {
                &&& again.result is Some <==> once.state.next_key_id < u64::MAX
                &&& again.result is Some ==> again.result == Some(true) && meta_at(
                    again.state.records,
                    key,
                ) is Some && meta_at(again.state.records, key).unwrap().id
                    == once.state.next_key_id && meta_at(again.state.records, key).unwrap().id
                    > first.unwrap().id
            }
        }),
{
    let t = KeyType::SetKey;
    let once = plain_put_spec(db, key, t, value, filler(), false);
    lemma_put_outcome(db, key, t, value, filler(), false);
    lemma_resolve(db, key, t);
    lemma_meta_key(key);
    let first = meta_at(once.state.records, key).unwrap();
    let k = item_key(first.id, value);
    let s1 = once.state.records;
    lemma_item_key(first.id, value);
    assert(s1.contains_key(meta_key(key)));
    assert(meta_ok(s1, key, once.state.next_key_id));
    assert(s1.contains_key(k));
    if meta_at(db.records, key) is None {
        lemma_plain_put_new(db, key, t, value, filler(), false);
        lemma_fresh_meta_wf(db.next_key_id, t);
        lemma_parse_encode(fresh_meta(db.next_key_id, t).with_count(1));
    }
    // The delete takes the record and, if it was the last, the metadata record.
    let gone = plain_delete_spec(once.state, true, key, t, value);
    let less = first.with_count((first.count - 1) as u64);
    lemma_collection_finite(s1, first.id);
    lemma_plain_take(collection(s1, first.id), first, k);
    lemma_collection_remove(s1, first.id, k);
    lemma_update_collection(s1, once.state.next_key_id, key, s1.remove(k), less, true);
    if first.count != 1 {
        lemma_parse_encode(less);
    }
    // The key comes into use again under the next id.
    if first.count == 1 && gone.state.next_key_id < u64::MAX {
        lemma_plain_put_new(gone.state, key, t, value, filler(), false);
        let second = fresh_meta(gone.state.next_key_id, t).with_count(1);
        lemma_fresh_meta_wf(gone.state.next_key_id, t);
        lemma_parse_encode(second);
    }
}

/// What a put into a plain collection leaves behind: a consistent database
/// in which the key has its metadata record, of the same id as before, and
/// the record written is there.
pub proof fn lemma_put_outcome(
    db: DbView,
    key: Seq<u8>,
    t: KeyType,
    tail: Seq<u8>,
    value: Seq<u8>,
    always_save: bool,
)
    requires
        db.inv(),
        crate::map_set::is_plain(t),
        plain_put_spec(db, key, t, tail, value, always_save).result is Some,
    ensures
        ({
            let before = resolve(db, key, t);
            let m = before.result.unwrap();
            let out = plain_put_spec(db, key, t, tail, value, always_save);
            let fresh = !before.state.records.contains_key(item_key(m.id, tail));
            &&& out.state.inv()
            &&& before.result is Some
            &&& m.key_type == t
            &&& out.result == Some(fresh)
            &&& meta_at(out.state.records, key) == Some(
                if fresh {
                    m.with_count((m.count + 1) as u64)
                } else {
                    m
                },
            )
            &&& lookup(out.state.records, item_key(m.id, tail)) == Some(value)
        }),
{
    let before = resolve(db, key, t);
    lemma_resolve(db, key, t);
    let m = before.result.unwrap();
    let s = before.state.records;
    let c = collection(s, m.id);
    let k = item_key(m.id, tail);
    let out = plain_put_spec(db, key, t, tail, value, always_save);
    assert(s.contains_key(meta_key(key)));
    assert(meta_ok(s, key, before.state.next_key_id));
    lemma_collection_finite(s, m.id);
    lemma_item_key(m.id, tail);
    lemma_meta_key(key);
    lemma_plain_put(c, m, k, value);
    lemma_collection_insert(s, m.id, k, value);
    if !s.contains_key(k) {
        lemma_update_collection(
            s,
            before.state.next_key_id,
            key,
            s.insert(k, value),
            m.with_count((m.count + 1) as u64),
            false,
        );
    } else if always_save {
        lemma_update_collection(s, before.state.next_key_id, key, s.insert(k, value), m, false);
    } else {
        crate::model::lemma_touch_collection(s, before.state.next_key_id, key, s.insert(k, value));
    }
}

/// A pop from a list that is not in use, or that has no items, gives
/// nothing and changes nothing.
pub proof fn law_list_pop_of_empty(db: DbView, drop_if_empty: bool, name: Seq<u8>, left: bool)
    requires
        db.inv(),
        meta_at(db.records, name) matches Some(m) ==> m.key_type == KeyType::ListKey && m.count
            == 0,
    ensures
        list_pop_spec(db, drop_if_empty, name, left).result == Some(None::<Seq<u8>>),
        list_pop_spec(db, drop_if_empty, name, left).state == db,
{
    if meta_at(db.records, name) is Some {
        let m = meta_at(db.records, name).unwrap();
        let c = collection(db.records, m.id);
        let k = list_item_key(m.id, pop_position(m, left));
        assert(db.records.contains_key(meta_key(name)));
        assert(meta_ok(db.records, name, db.next_key_id));
        lemma_collection_finite(db.records, m.id);
        crate::list::lemma_list_key(m.id, pop_position(m, left));
        if db.records.contains_key(k) {
            assert(c.contains_key(k));
        }
    }
}

/// The pop that takes the last item of a list also takes the metadata
/// record away, when empty records are to be dropped.
pub proof fn law_list_pop_of_last(db: DbView, name: Seq<u8>, left: bool)
    requires
        db.inv(),
        meta_at(db.records, name) is Some,
        meta_at(db.records, name).unwrap().key_type == KeyType::ListKey,
        meta_at(db.records, name).unwrap().count == 1,
    ensures
        list_pop_spec(db, true, name, left).result is Some,
        list_pop_spec(db, true, name, left).result.unwrap() is Some,
        meta_at(list_pop_spec(db, true, name, left).state.records, name) is None,
        !list_pop_spec(db, true, name, left).state.records.contains_key(meta_key(name)),
{
    let m = meta_at(db.records, name).unwrap();
    let c = collection(db.records, m.id);
    let k = list_item_key(m.id, pop_position(m, left));
    assert(db.records.contains_key(meta_key(name)));
    assert(meta_ok(db.records, name, db.next_key_id));
    crate::list::lemma_list_key(m.id, pop_position(m, left));
    lemma_meta_key(name);
    assert(c.contains_key(k));
}

/// A sorted set takes a score of 255 bytes at the most unless a length of
/// one byte or more is stored and the score has another length. A score that
/// is turned down changes nothing.
pub proof fn law_sorted_set_score_length(db: DbView, name: Seq<u8>, score: Seq<u8>, value: Seq<u8>)
    requires
        db.inv(),
        meta_at(db.records, name) is Some,
        meta_at(db.records, name).unwrap().key_type == KeyType::SortedSetKey,
        meta_at(db.records, name).unwrap().count < u64::MAX,
        score.len() <= 255,
    ensures
        sorted_set_add_spec(db, name, score, value).result is None <==> meta_at(
            db.records,
            name,
        ).unwrap().score_len() >= 1 && score.len() != meta_at(db.records, name).unwrap().score_len(),
        sorted_set_add_spec(db, name, score, value).result is None ==> sorted_set_add_spec(
            db,
            name,
            score,
            value,
        ).state == db,
{
}

/// A sorted set that is not in use takes every score of 255 bytes at the
/// most, the empty one too. The set then counts one member and stores the
/// length of the score.
pub proof fn law_sorted_set_first_score(db: DbView, name: Seq<u8>, score: Seq<u8>, value: Seq<u8>)
    requires
        db.inv(),
        score.len() <= 255,
        meta_at(db.records, name) is None,
        db.next_key_id < u64::MAX,
    ensures
        ({
            let out = sorted_set_add_spec(db, name, score, value);
            &&& out.result == Some(1u64)
            &&& meta_at(out.state.records, name) matches Some(m) && m.count == 1 && m.score_len()
                == score.len()
        }),
{
    let before = resolve(db, name, KeyType::SortedSetKey);
    lemma_resolve(db, name, KeyType::SortedSetKey);
    let m = before.result.unwrap();
    let s = before.state.records;
    let reverse = sorted_set_reverse_key(m.id, value);
    lemma_meta_key(name);
    lemma_sorted_set_extra(0, 0);
    lemma_sorted_set_keys(m.id, score, value);
    assert(s.contains_key(meta_key(name)));
    assert(meta_ok(s, name, before.state.next_key_id));
    lemma_collection_finite(s, m.id);
    crate::model::lemma_zero_count_empty(collection(s, m.id), m);
    assert(!collection(s, m.id).contains_key(reverse));
    let m2 = crate::sorted_set::with_score_len(m, score.len() as u8).with_count(1);
    lemma_sorted_set_extra(m.deleted_count(), score.len() as u8);
    crate::meta::lemma_parse_encode(m2);
}

/// A sorted set without a stored length, whatever it holds, stores the
/// length of the score that it takes.
pub proof fn law_sorted_set_stores_length(db: DbView, name: Seq<u8>, score: Seq<u8>, value: Seq<u8>)
    requires
        db.inv(),
        meta_at(db.records, name) is Some,
        meta_at(db.records, name).unwrap().key_type == KeyType::SortedSetKey,
        meta_at(db.records, name).unwrap().score_len() == 0,
        meta_at(db.records, name).unwrap().count < u64::MAX,
        score.len() <= 255,
    ensures
        ({
            let out = sorted_set_add_spec(db, name, score, value);
            &&& out.result is Some
            &&& meta_at(out.state.records, name) matches Some(m) && m.score_len() == score.len()
        }),
{
    let m = meta_at(db.records, name).unwrap();
    lemma_meta_key(name);
    assert(db.records.contains_key(meta_key(name)));
    assert(meta_ok(db.records, name, db.next_key_id));
    lemma_sorted_set_extra(m.deleted_count(), score.len() as u8);
    crate::meta::lemma_parse_encode(crate::sorted_set::with_score_len(m, score.len() as u8));
    crate::meta::lemma_parse_encode(
        crate::sorted_set::with_score_len(m, score.len() as u8).with_count((m.count + 1) as u64),
    );
}

/// The scores of the members that a read of a sorted set from the left
/// gives never go down.
pub proof fn law_sorted_set_left_is_sorted(
    s: Contents,
    m: MetaView,
    max: Option<Seq<u8>>,
    limit: usize,
    out: Seq<Scored>,
    i: int,
    j: int,
)
    requires
        is_sorted_set_left(s, m, max, limit, out),
        0 <= i < j < out.len(),
    ensures
        lex_le(out[i].0, out[j].0),
{
    let run = forward_records(s, m.id, out);
    assert(lex_lt(run[i].0, run[j].0));
    lemma_lex_total(out[i].0, out[j].0);
    if lex_lt(out[j].0, out[i].0) {
        lemma_score_order(m.id, m.score_len(), out[j], out[i]);
        lemma_lex_asymmetric(run[i].0, run[j].0);
    }
}

/// The scores of the members that a read of a sorted set from the right
/// gives never go up.
pub proof fn law_sorted_set_right_is_sorted(
    s: Contents,
    m: MetaView,
    min: Option<Seq<u8>>,
    limit: usize,
    out: Seq<Scored>,
    i: int,
    j: int,
)
    requires
        is_sorted_set_right(s, m, min, limit, out),
        0 <= i < j < out.len(),
    ensures
        lex_le(out[j].0, out[i].0),
{
    let run = forward_records(s, m.id, out);
    assert(lex_lt(run[j].0, run[i].0));
    lemma_lex_total(out[i].0, out[j].0);
    if lex_lt(out[i].0, out[j].0) {
        lemma_score_order(m.id, m.score_len(), out[i], out[j]);
        lemma_lex_asymmetric(run[j].0, run[i].0);
    }
}

/// A sound sorted set stays sound when a value is added under a score of
/// the stored length, or added to a set without members; and a set that
/// comes into use with the add is sound. What is left out is the add of a
/// score that has a length to a set that holds members under the empty
/// score.
pub proof fn law_sorted_set_add_keeps_sound(
    db: DbView,
    name: Seq<u8>,
    score: Seq<u8>,
    value: Seq<u8>,
)
    requires
        db.inv(),
        sorted_set_add_spec(db, name, score, value).result is Some,
        meta_at(db.records, name) matches Some(m) ==> sorted_set_sound(
            collection(db.records, m.id),
            m,
        ) && (score.len() == m.score_len() || m.count == 0),
    ensures
        ({
            let after = sorted_set_add_spec(db, name, score, value).state;
            &&& after.inv()
            &&& meta_at(after.records, name) matches Some(m) && sorted_set_sound(
                collection(after.records, m.id),
                m,
            )
        }),
{
    let before = resolve(db, name, KeyType::SortedSetKey);
    lemma_resolve(db, name, KeyType::SortedSetKey);
    let m = before.result.unwrap();
    let s = before.state.records;
    let c = collection(s, m.id);
    let forward = sorted_set_forward_key(m.id, score, value);
    let reverse = sorted_set_reverse_key(m.id, value);
    lemma_meta_key(name);
    lemma_sorted_set_keys(m.id, score, value);
    assert(s.contains_key(meta_key(name)));
    assert(meta_ok(s, name, before.state.next_key_id));
    lemma_collection_finite(s, m.id);
    lemma_sorted_set_extra(m.deleted_count(), score.len() as u8);
    assert(sorted_set_sound(c, m));
    if s.contains_key(reverse) {
        let gone = sorted_set_forward_key(m.id, s[reverse], value);
        let m2 = crate::sorted_set::with_score_len(m, score.len() as u8);
        let mid = s.remove(gone).insert(forward, filler()).insert(reverse, score);
        assert(c.contains_key(reverse));
        assert(reverse_keys(c).contains(reverse));
        assert(reverse_record_ok(c, m, reverse));
        lemma_sorted_set_keys(m.id, s[reverse], value);
        lemma_sound_move(c, m, score, value);
        lemma_sorted_set_move(c, m, score, value);
        lemma_collection_remove(s, m.id, gone);
        lemma_collection_insert(s.remove(gone), m.id, forward, filler());
        lemma_collection_insert(s.remove(gone).insert(forward, filler()), m.id, reverse, score);
        lemma_update_collection(s, before.state.next_key_id, name, mid, m2, false);
        lemma_collection_insert(mid, m.id, meta_key(name), crate::meta::encode_meta(m2));
    } else {
        let m2 = crate::sorted_set::with_score_len(m, score.len() as u8).with_count(
            (m.count + 1) as u64,
        );
        let mid = s.insert(forward, filler()).insert(reverse, score);
        lemma_sound_put(c, m, score, value);
        lemma_sorted_set_put(c, m, score, value);
        lemma_collection_insert(s, m.id, forward, filler());
        lemma_collection_insert(s.insert(forward, filler()), m.id, reverse, score);
        lemma_update_collection(s, before.state.next_key_id, name, mid, m2, false);
        lemma_collection_insert(mid, m.id, meta_key(name), crate::meta::encode_meta(m2));
    }
}

/// A sound sorted set stays sound when a value is deleted.
pub proof fn law_sorted_set_delete_keeps_sound(
    db: DbView,
    threshold: u32,
    drop_if_empty: bool,
    name: Seq<u8>,
    value: Seq<u8>,
)
    requires
        db.inv(),
        meta_at(db.records, name) is Some,
        sorted_set_delete_spec(db, threshold, drop_if_empty, name, value).result is Some,
        sorted_set_sound(
            collection(db.records, meta_at(db.records, name).unwrap().id),
            meta_at(db.records, name).unwrap(),
        ),
    ensures
        ({
            let after = sorted_set_delete_spec(db, threshold, drop_if_empty, name, value).state;
            &&& after.inv()
            &&& meta_at(after.records, name) matches Some(m) ==> sorted_set_sound(
                collection(after.records, m.id),
                m,
            )
        }),
{
    let m = meta_at(db.records, name).unwrap();
    let s = db.records;
    let c = collection(s, m.id);
    let reverse = sorted_set_reverse_key(m.id, value);
    lemma_meta_key(name);
    assert(s.contains_key(meta_key(name)));
    assert(meta_ok(s, name, db.next_key_id));
    if s.contains_key(reverse) {
        let bumped = crate::sorted_list::next_deleted(m.deleted_count(), threshold);
        let m2 = m.with_count((m.count - 1) as u64).with_extra(
            crate::meta::sorted_set_extra(bumped.0, m.score_len()),
        );
        let gone = sorted_set_forward_key(m.id, s[reverse], value);
        let mid = s.remove(gone).remove(reverse);
        lemma_collection_finite(s, m.id);
        lemma_sorted_set_keys(m.id, Seq::empty(), value);
        assert(c.contains_key(reverse));
        assert(reverse_record_ok(c, m, reverse));
        lemma_sorted_set_keys(m.id, s[reverse], value);
        lemma_sound_take(c, m, value, bumped.0);
        lemma_sorted_set_take(c, m, value, bumped.0);
        lemma_collection_remove(s, m.id, gone);
        lemma_collection_remove(s.remove(gone), m.id, reverse);
        lemma_update_collection(s, db.next_key_id, name, mid, m2, drop_if_empty);
        if !(drop_if_empty && m2.count == 0) {
            lemma_collection_insert(mid, m.id, meta_key(name), crate::meta::encode_meta(m2));
        }
    }
}

/// A value added to a sorted set is a member afterwards, under the score it
/// was added with.
pub proof fn law_sorted_set_member_after_add(
    db: DbView,
    name: Seq<u8>,
    score: Seq<u8>,
    value: Seq<u8>,
)
    requires
        db.inv(),
        sorted_set_add_spec(db, name, score, value).result is Some,
    ensures
        ({
            let after = sorted_set_add_spec(db, name, score, value).state.records;
            &&& sorted_set_is_member_spec(after, name, value) == Some(true)
            &&& meta_at(after, name) is Some
            &&& lookup(after, sorted_set_reverse_key(meta_at(after, name).unwrap().id, value))
                == Some(score)
        }),
{
    let before = resolve(db, name, KeyType::SortedSetKey);
    lemma_resolve(db, name, KeyType::SortedSetKey);
    let m = before.result.unwrap();
    let s = before.state.records;
    let reverse = sorted_set_reverse_key(m.id, value);
    lemma_meta_key(name);
    lemma_sorted_set_keys(m.id, score, value);
    if s.contains_key(reverse) {
        lemma_sorted_set_keys(m.id, Seq::empty(), value);
        assert(s.contains_key(meta_key(name)));
        assert(meta_ok(s, name, before.state.next_key_id));
        assert(collection(s, m.id).contains_key(reverse));
        assert(s[reverse].len() <= 255);
        lemma_sorted_set_keys(m.id, s[reverse], value);
        let m2 = crate::sorted_set::with_score_len(m, score.len() as u8);
        crate::meta::lemma_sorted_set_extra(m.deleted_count(), score.len() as u8);
        crate::meta::lemma_parse_encode(m2);
    } else {
        let m2 = crate::sorted_set::with_score_len(m, score.len() as u8).with_count(
            (m.count + 1) as u64,
        );
        crate::meta::lemma_sorted_set_extra(m.deleted_count(), score.len() as u8);
        crate::meta::lemma_parse_encode(m2);
    }
}

/// A value deleted from a sorted set is no member afterwards.
pub proof fn law_sorted_set_no_member_after_delete(
    db: DbView,
    threshold: u32,
    drop_if_empty: bool,
    name: Seq<u8>,
    value: Seq<u8>,
)
    requires
        db.inv(),
        sorted_set_delete_spec(db, threshold, drop_if_empty, name, value).result is Some,
    ensures
        sorted_set_is_member_spec(
            sorted_set_delete_spec(db, threshold, drop_if_empty, name, value).state.records,
            name,
            value,
        ) == Some(false),
{
    if meta_at(db.records, name) is Some {
        let m = meta_at(db.records, name).unwrap();
        let s = db.records;
        let reverse = sorted_set_reverse_key(m.id, value);
        if s.contains_key(reverse) {
            let bumped = crate::sorted_list::next_deleted(m.deleted_count(), threshold);
            let m2 = m.with_count((m.count - 1) as u64).with_extra(
                crate::meta::sorted_set_extra(bumped.0, m.score_len()),
            );
            lemma_meta_key(name);
            lemma_sorted_set_keys(m.id, Seq::empty(), value);
            assert(s.contains_key(meta_key(name)));
            assert(meta_ok(s, name, db.next_key_id));
            assert(collection(s, m.id).contains_key(reverse));
            assert(s[reverse].len() <= 255);
            lemma_sorted_set_keys(m.id, s[reverse], value);
            crate::meta::lemma_sorted_set_extra(bumped.0, m.score_len());
            crate::meta::lemma_parse_encode(m2);
        }
    }
}

/// A read of a whole sorted set from the right gives what a read of the
/// whole set from the left gives, in the opposite order.
pub proof fn law_sorted_set_right_is_left_reversed(
    s: Contents,
    m: MetaView,
    limit: usize,
    left: Seq<Scored>,
    right: Seq<Scored>,
)
    requires
        is_sorted_set_left(s, m, None, limit, left),
        is_sorted_set_right(s, m, None, limit, right),
        left.len() < limit,
        right.len() < limit,
    ensures
        right.len() == left.len(),
        forall|i: int| 0 <= i < right.len() ==> #[trigger] right[i] == left[left.len() - 1 - i],
{
    let p = sorted_set_prefix(m.id);
    let up = forward_records(s, m.id, left);
    let down = forward_records(s, m.id, right);
    let n = down.len();
    let turned = Seq::new(n, |i: int| down[n - 1 - i]);
    assert(is_full_run(s, p, up));
    assert(is_full_run(s, p, turned)) by {
        assert forall|i: int| 0 <= i < turned.len() implies s.contains_key(
            (#[trigger] turned[i]).0,
        ) && s[turned[i].0] == turned[i].1 && p.is_prefix_of(turned[i].0) by {
            assert(turned[i] == down[n - 1 - i]);
        }
        assert forall|i: int, j: int| 0 <= i < j < turned.len() implies lex_lt(
            (#[trigger] turned[i]).0,
            (#[trigger] turned[j]).0,
        ) by {
            assert(turned[i] == down[n - 1 - i] && turned[j] == down[n - 1 - j]);
            assert(lex_lt(down[n - 1 - i].0, down[n - 1 - j].0));
        }
        assert forall|x: Seq<u8>| #[trigger] s.contains_key(x) && p.is_prefix_of(
            x,
        ) implies listed(turned, x) by {
            assert(listed(down, x));
            let i = choose|i: int| 0 <= i < down.len() && (#[trigger] down[i]).0 == x;
            assert(turned[n - 1 - i].0 == x);
        }
    }
    lemma_full_run_unique(s, p, up, turned);
    assert forall|i: int| 0 <= i < right.len() implies #[trigger] right[i] == left[left.len() - 1
        - i] by {
        let j = left.len() - 1 - i;
        assert(turned[j] == down[i]);
        assert(up[j] == down[i]);
        lemma_sorted_set_keys(m.id, left[j].0, left[j].1);
        lemma_sorted_set_keys(m.id, right[i].0, right[i].1);
    }
}

/// A listing of a map, a set, a list or a sorted list, of all its items or
/// of those whose keys start with a prefix, has no more entries than the
/// collection counts.
pub proof fn law_items_within_count<T>(
    db: DbView,
    name: Seq<u8>,
    narrow: Option<Seq<u8>>,
    shown: spec_fn(Record) -> T,
    out: Seq<T>,
)
    requires
        db.inv(),
        meta_at(db.records, name) matches Some(m) ==> m.key_type != KeyType::SortedSetKey,
        shows(db.records, walk_prefix(db.records, name, narrow), shown, out),
    ensures
        out.len() <= count_of(db.records, name),
{
    let s = db.records;
    if walk_prefix(s, name, narrow) is Some {
        let m = meta_at(s, name).unwrap();
        let p = walk_prefix(s, name, narrow).unwrap();
        let c = collection(s, m.id);
        let full = law_full_run_exists(s, p);
        let keys = full.map_values(|r: Record| r.0);
        assert(s.contains_key(meta_key(name)));
        assert(meta_ok(s, name, db.next_key_id));
        lemma_collection_finite(s, m.id);
        lemma_data_prefix(m.id);
        assert(keys.no_duplicates()) by {
            assert forall|i: int, j: int| 0 <= i < keys.len() && 0 <= j < keys.len() && i
                != j implies keys[i] != keys[j] by {
                lemma_lex_irreflexive(full[i].0);
                if i < j {
                    assert(lex_lt(full[i].0, full[j].0));
                } else {
                    assert(lex_lt(full[j].0, full[i].0));
                }
            }
        }
        keys.unique_seq_to_set();
        assert(keys.to_set().subset_of(c.dom())) by {
            assert forall|x: Seq<u8>| keys.to_set().contains(x) implies c.dom().contains(x) by {
                let i = choose|i: int| 0 <= i < keys.len() && keys[i] == x;
                assert(s.contains_key(full[i].0) && p.is_prefix_of(full[i].0));
                assert(data_prefix(m.id).is_prefix_of(x)) by {
                    assert(x.subrange(0, 10) =~= p.subrange(0, 10));
                    assert(p.subrange(0, 10) =~= data_prefix(m.id));
                }
            }
        }
        vstd::set_lib::lemma_len_subset(keys.to_set(), c.dom());
    }
}

/// Neither score is a proper beginning of the other.
pub open spec fn apart(a: Seq<u8>, b: Seq<u8>) -> bool {
    a == b || (!a.is_prefix_of(b) && !b.is_prefix_of(a))
}

/// The keys of two items of a sorted list compare as their scores do, and
/// as their sequence numbers when the scores are equal, provided that
/// neither score is a proper beginning of the other.
pub proof fn law_sorted_list_key_order(
    id: u64,
    a: Seq<u8>,
    first: u64,
    b: Seq<u8>,
    second: u64,
)
    requires
        apart(a, b),
    ensures
        lex_lt(sorted_list_item_key(id, a, first), sorted_list_item_key(id, b, second)) <==> (
        lex_lt(a, b) || (a == b && first < second)),
{
    let p = data_prefix(id);
    let x = be_bytes(first as nat, 8);
    let y = be_bytes(second as nat, 8);
    let ka = sorted_list_item_key(id, a, first);
    let kb = sorted_list_item_key(id, b, second);
    assert(ka =~= p + (a + x));
    assert(kb =~= p + (b + y));
    lemma_lex_concat(p, a + x, b + y);
    lemma_pow256_values();
    if a == b {
        lemma_lex_concat(a, x, y);
        lemma_be_order(first as nat, second as nat, 8);
        lemma_lex_irreflexive(a);
    } else {
        lemma_lex_total(a, b);
        if lex_lt(a, b) {
            lemma_lex_extend_apart(a, b, x, y);
        } else {
            lemma_lex_extend_apart(b, a, y, x);
            lemma_lex_asymmetric(b + y, a + x);
            lemma_lex_asymmetric(b, a);
        }
    }
}

/// The item that a left pop of a sorted list takes has the least score, and
/// among the items of that score the least sequence number: the one that
/// was added first. This holds against every item whose score is not a
/// proper beginning of the popped item's score, nor the other way round.
pub proof fn law_sorted_list_left_pop_takes_least(db: DbView, name: Seq<u8>, other: Seq<u8>)
    requires
        db.inv(),
        meta_at(db.records, name) is Some,
        meta_at(db.records, name).unwrap().key_type == KeyType::SortedListKey,
        collection(db.records, meta_at(db.records, name).unwrap().id).contains_key(other),
        apart(
            sorted_list_score_of(
                least_key(collection(db.records, meta_at(db.records, name).unwrap().id)),
            ),
            sorted_list_score_of(other),
        ),
    ensures
        ({
            let c = collection(db.records, meta_at(db.records, name).unwrap().id);
            let k = least_key(c);
            &&& c.contains_key(k)
            &&& lex_le(sorted_list_score_of(k), sorted_list_score_of(other))
            &&& sorted_list_score_of(k) == sorted_list_score_of(other) ==> sequence_of(k)
                <= sequence_of(other)
        }),
{
    let m = meta_at(db.records, name).unwrap();
    let c = collection(db.records, m.id);
    lemma_collection_finite(db.records, m.id);
    lemma_least_exists(c);
    let k = least_key(c);
    assert(db.records.contains_key(meta_key(name)));
    assert(meta_ok(db.records, name, db.next_key_id));
    lemma_sorted_list_key_of(m.id, k);
    lemma_sorted_list_key_of(m.id, other);
    law_sorted_list_key_order(
        m.id,
        sorted_list_score_of(other),
        sequence_of(other),
        sorted_list_score_of(k),
        sequence_of(k),
    );
    assert(lex_le(k, other));
    lemma_lex_total(sorted_list_score_of(k), sorted_list_score_of(other));
    if k != other {
        lemma_lex_asymmetric(k, other);
    }
}

/// The item that a right pop of a sorted list takes has the greatest score,
/// and among the items of that score the greatest sequence number: the one
/// that was added last. This holds against every item whose score is not a
/// proper beginning of the popped item's score, nor the other way round.
pub proof fn law_sorted_list_right_pop_takes_greatest(db: DbView, name: Seq<u8>, other: Seq<u8>)
    requires
        db.inv(),
        meta_at(db.records, name) is Some,
        meta_at(db.records, name).unwrap().key_type == KeyType::SortedListKey,
        collection(db.records, meta_at(db.records, name).unwrap().id).contains_key(other),
        apart(
            sorted_list_score_of(
                greatest_key(collection(db.records, meta_at(db.records, name).unwrap().id)),
            ),
            sorted_list_score_of(other),
        ),
    ensures
        ({
            let c = collection(db.records, meta_at(db.records, name).unwrap().id);
            let k = greatest_key(c);
            &&& c.contains_key(k)
            &&& lex_le(sorted_list_score_of(other), sorted_list_score_of(k))
            &&& sorted_list_score_of(k) == sorted_list_score_of(other) ==> sequence_of(other)
                <= sequence_of(k)
        }),
{
    let m = meta_at(db.records, name).unwrap();
    let c = collection(db.records, m.id);
    lemma_collection_finite(db.records, m.id);
    lemma_greatest_exists(c);
    let k = greatest_key(c);
    assert(db.records.contains_key(meta_key(name)));
    assert(meta_ok(db.records, name, db.next_key_id));
    lemma_sorted_list_key_of(m.id, k);
    lemma_sorted_list_key_of(m.id, other);
    law_sorted_list_key_order(
        m.id,
        sorted_list_score_of(k),
        sequence_of(k),
        sorted_list_score_of(other),
        sequence_of(other),
    );
    assert(lex_le(other, k));
    lemma_lex_total(sorted_list_score_of(k), sorted_list_score_of(other));
    if k != other {
        lemma_lex_asymmetric(other, k);
    }
}

/// A right pop of a sorted list gives nothing and changes nothing when every
/// score in the list is below the bound.
pub proof fn law_sorted_list_right_pop_below_bound(
    db: DbView,
    threshold: u32,
    drop_if_empty: bool,
    name: Seq<u8>,
    bound: Seq<u8>,
)
    requires
        db.inv(),
        meta_at(db.records, name) is Some,
        meta_at(db.records, name).unwrap().key_type == KeyType::SortedListKey,
        forall|k: Seq<u8>| #[trigger]
            collection(db.records, meta_at(db.records, name).unwrap().id).contains_key(k)
                ==> lex_lt(sorted_list_score_of(k), bound),
    ensures
        sorted_list_right_pop_spec(db, threshold, drop_if_empty, name, Some(bound)).result == Some(
            None::<Record>,
        ),
        sorted_list_right_pop_spec(db, threshold, drop_if_empty, name, Some(bound)).state == db,
{
    let m = meta_at(db.records, name).unwrap();
    let c = collection(db.records, m.id);
    if !is_empty(c) {
        lemma_collection_finite(db.records, m.id);
        lemma_greatest_exists(c);
    }
}

/// An item added to a sorted list gets a sequence number above those of all
/// items that the list holds.
pub proof fn law_sorted_list_add_is_newest(
    db: DbView,
    name: Seq<u8>,
    score: Seq<u8>,
    value: Seq<u8>,
    other: Seq<u8>,
)
    requires
        db.inv(),
        meta_at(db.records, name) is Some,
        sorted_list_add_spec(db, name, score, value).result is Some,
        collection(db.records, meta_at(db.records, name).unwrap().id).contains_key(other),
    ensures
        ({
            let m = meta_at(db.records, name).unwrap();
            let added = sorted_list_item_key(m.id, score, m.sequence());
            &&& lookup(sorted_list_add_spec(db, name, score, value).state.records, added) == Some(
                value,
            )
            &&& sequence_of(other) < sequence_of(added)
            &&& sorted_list_add_spec(db, name, score, value).state.records.contains_key(other)
        }),
{
    let m = meta_at(db.records, name).unwrap();
    assert(db.records.contains_key(meta_key(name)));
    assert(meta_ok(db.records, name, db.next_key_id));
    lemma_sorted_list_key(m.id, score, m.sequence());
    lemma_meta_key(name);
}

/// A left pop of a sorted list gives nothing and changes nothing when every
/// score in the list is above the bound.
pub proof fn law_sorted_list_left_pop_above_bound(
    db: DbView,
    threshold: u32,
    drop_if_empty: bool,
    name: Seq<u8>,
    bound: Seq<u8>,
)
    requires
        db.inv(),
        meta_at(db.records, name) is Some,
        meta_at(db.records, name).unwrap().key_type == KeyType::SortedListKey,
        forall|k: Seq<u8>| #[trigger]
            collection(db.records, meta_at(db.records, name).unwrap().id).contains_key(k)
                ==> lex_lt(bound, sorted_list_score_of(k)),
    ensures
        sorted_list_left_pop_spec(db, threshold, drop_if_empty, name, Some(bound)).result == Some(
            None::<Record>,
        ),
        sorted_list_left_pop_spec(db, threshold, drop_if_empty, name, Some(bound)).state == db,
{
    let m = meta_at(db.records, name).unwrap();
    let c = collection(db.records, m.id);
    if !is_empty(c) {
        lemma_collection_finite(db.records, m.id);
        lemma_least_exists(c);
    }
}

/// A record of a sorted list is made of the score and the sequence number
/// that can be read off its key.
pub proof fn lemma_sorted_list_key_of(id: u64, k: Seq<u8>)
    requires
        in_collection(id, k),
        k.len() >= 18,
    ensures
        k == sorted_list_item_key(id, sorted_list_score_of(k), sequence_of(k)),
{
    lemma_in_collection(id, k);
    lemma_data_prefix(id);
    let tail = k.subrange(k.len() - 8, k.len() as int);
    lemma_be_bytes_of_value(tail);
    lemma_pow256_values();
    assert(k =~= data_prefix(id) + sorted_list_score_of(k) + tail);
}

} // verus!
