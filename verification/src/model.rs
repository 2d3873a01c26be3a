//! What a database is, mathematically, and when it is consistent.
//!
//! A database is the contents of its store, the history of the compactions
//! it asked for, and the next id it will hand out. It is consistent when
//! every metadata record can be read, carries an id of its own below the next
//! id, and agrees with the item records filed under that id.

use vstd::prelude::*;
use crate::bigendian::{
    be_bytes, be_value, lemma_be_bytes_of_value, lemma_be_len, lemma_be_order,
    lemma_be_value_of_bytes, lemma_pow256_values, unbiased,
};
use crate::codec::{
    data_prefix, data_tag, forward_tag, list_item_key, meta_key, meta_prefix, reverse_tag,
    sorted_set_forward_key, sorted_set_pair_of, sorted_set_reverse_key, tail_from,
};
use crate::lex::{
    lemma_between_prefix, lemma_lex_asymmetric, lemma_lex_concat, lemma_lex_extend,
    lemma_lex_irreflexive, lemma_lex_lt_le, lemma_lex_total, lemma_past_prefix, lemma_prefix_le,
    lex_le, lex_lt,
};
use crate::meta::{
    encode_meta, fresh_meta, lemma_fresh_meta_wf, lemma_list_extra, lemma_parse_encode,
    lemma_sorted_list_extra, lemma_sorted_set_extra, parse_meta, KeyType, MetaView,
};
use crate::store::{is_first_at_or_after, is_last_before, lookup, Contents, Record};

verus! {

/// The mathematical content of a database.
pub struct DbView {
    /// What the store holds.
    pub records: Contents,
    /// The ranges that the store was asked to compact, oldest first.
    pub compactions: Seq<Record>,
    /// The id that the next new collection gets.
    pub next_key_id: u64,
}

/// `k` is a data key of the collection with this id.
pub open spec fn in_collection(id: u64, k: Seq<u8>) -> bool {
    data_prefix(id).is_prefix_of(k)
}

/// The item records of the collection with this id.
pub open spec fn collection(s: Contents, id: u64) -> Contents {
    s.restrict(Set::new(|k: Seq<u8>| in_collection(id, k)))
}

/// The id written in a data key.
pub open spec fn key_id(k: Seq<u8>) -> u64 {
    be_value(k.subrange(2, 10)) as u64
}

/// `k` starts with the tag of the data keys.
pub open spec fn is_data_key(k: Seq<u8>) -> bool {
    data_tag().is_prefix_of(k)
}

/// The metadata record stored for a logical key, if there is one that can be
/// read.
pub open spec fn meta_at(s: Contents, name: Seq<u8>) -> Option<MetaView> {
    match lookup(s, meta_key(name)) {
        Some(b) => parse_meta(b),
        None => None,
    }
}

/// The position written in a list's data key.
pub open spec fn position_of(k: Seq<u8>) -> i64 {
    unbiased(be_value(k.subrange(10, 18)))
}

/// The sequence number written at the end of a sorted list's data key.
pub open spec fn sequence_of(k: Seq<u8>) -> u64 {
    be_value(k.subrange(k.len() - 8, k.len() as int)) as u64
}

/// The keys of a sorted set's score-ordered records.
pub open spec fn forward_keys(c: Contents) -> Set<Seq<u8>> {
    c.dom().filter(|k: Seq<u8>| k.len() > 10 && k[10] == forward_tag())
}

/// The keys of a sorted set's member-lookup records.
pub open spec fn reverse_keys(c: Contents) -> Set<Seq<u8>> {
    c.dom().filter(|k: Seq<u8>| k.len() > 10 && k[10] == reverse_tag())
}

/// A list's records sit at exactly the positions strictly between its two
/// ends, and their number is the count.
pub open spec fn list_ok(c: Contents, m: MetaView) -> bool {
    &&& m.list_left() < m.list_right()
    &&& m.count == m.list_right() - m.list_left() - 1
    &&& m.count == c.dom().len()
    &&& forall|p: i64|
        m.list_left() < p < m.list_right() ==> c.contains_key(#[trigger] list_item_key(m.id, p))
    &&& forall|k: Seq<u8>| #[trigger]
        c.contains_key(k) ==> k.len() == 18 && m.list_left() < position_of(k) < m.list_right()
}

/// A sorted list's records number the count, and each carries a sequence
/// number that was already handed out.
pub open spec fn sorted_list_ok(c: Contents, m: MetaView) -> bool {
    &&& m.count == c.dom().len()
    &&& forall|k: Seq<u8>| #[trigger]
        c.contains_key(k) ==> k.len() >= 18 && sequence_of(k) < m.sequence()
}

/// The forward record `k` of a sorted set is the one of the member `value`:
/// the member's reverse record is there, and `k` is the forward key of the
/// score that it holds and the member.
pub open spec fn owned_by(c: Contents, m: MetaView, k: Seq<u8>, value: Seq<u8>) -> bool {
    &&& c.contains_key(sorted_set_reverse_key(m.id, value))
    &&& k == sorted_set_forward_key(m.id, c[sorted_set_reverse_key(m.id, value)], value)
}

/// The forward record `k` of a sorted set is the one of some member. The
/// member is what follows the tag in `k`, if its score is empty, or what
/// follows a score of the stored length.
pub open spec fn forward_is_owned(c: Contents, m: MetaView, k: Seq<u8>) -> bool {
    owned_by(c, m, k, tail_from(k, 11)) || owned_by(
        c,
        m,
        k,
        sorted_set_pair_of(k, m.score_len()).1,
    )
}

/// What holds of every sorted set: the count is the number of its reverse
/// records, one for each member; every score is empty or has the stored
/// length; and every forward record is the one of some member. Members whose
/// scores are empty can stand beside members whose scores have the stored
/// length, for a length is stored with the first score that has one.
pub open spec fn sorted_set_weak(c: Contents, m: MetaView) -> bool {
    &&& m.count == reverse_keys(c).len()
    &&& forall|k: Seq<u8>| #[trigger]
        c.contains_key(k) ==> k.len() >= 11 && (k[10] == forward_tag() || k[10] == reverse_tag())
    &&& forall|k: Seq<u8>| #[trigger]
        c.contains_key(k) && k[10] == reverse_tag() ==> c[k].len() == 0 || c[k].len()
            == m.score_len()
    &&& forall|k: Seq<u8>| #[trigger]
        c.contains_key(k) && k[10] == forward_tag() ==> forward_is_owned(c, m, k)
}

/// The reverse record `k` of a sorted set holds a score of the stored
/// length, and the forward record of that score and member is there.
pub open spec fn reverse_record_ok(c: Contents, m: MetaView, k: Seq<u8>) -> bool {
    &&& c[k].len() == m.score_len()
    &&& c.contains_key(sorted_set_forward_key(m.id, c[k], tail_from(k, 11)))
}

/// The forward record `k` of a sorted set names, after a score of the stored
/// length, a member whose reverse record is there and holds that score.
pub open spec fn forward_record_ok(c: Contents, m: MetaView, k: Seq<u8>) -> bool {
    &&& k.len() >= 11 + m.score_len()
    &&& c.contains_key(
        sorted_set_reverse_key(m.id, sorted_set_pair_of(k, m.score_len()).1),
    )
    &&& c[sorted_set_reverse_key(m.id, sorted_set_pair_of(k, m.score_len()).1)]
        == sorted_set_pair_of(k, m.score_len()).0
}

/// A sorted set is sound when every member has its two records, which agree
/// on a score of the stored length, and the count is the number of records
/// of either family. A set is sound from its first member on, and stays so,
/// unless a score with a length is added while it holds members whose scores
/// are empty.
pub open spec fn sorted_set_sound(c: Contents, m: MetaView) -> bool {
    &&& m.count == forward_keys(c).len()
    &&& m.count == reverse_keys(c).len()
    &&& forall|k: Seq<u8>| #[trigger]
        c.contains_key(k) ==> k.len() >= 11 && (k[10] == forward_tag() || k[10] == reverse_tag())
    &&& forall|k: Seq<u8>| #[trigger]
        c.contains_key(k) && k[10] == reverse_tag() ==> reverse_record_ok(c, m, k)
    &&& forall|k: Seq<u8>| #[trigger]
        c.contains_key(k) && k[10] == forward_tag() ==> forward_record_ok(c, m, k)
}

/// The records of a sorted set agree with its metadata record: what holds of
/// every sorted set holds, and a set without a stored length is sound.
pub open spec fn sorted_set_ok(c: Contents, m: MetaView) -> bool {
    &&& sorted_set_weak(c, m)
    &&& m.score_len() == 0 ==> sorted_set_sound(c, m)
}

/// The metadata record `m` agrees with the item records `c` of its collection.
pub open spec fn collection_ok(c: Contents, m: MetaView) -> bool {
    &&& m.wf()
    &&& match m.key_type {
        KeyType::MapKey => m.count == c.dom().len(),
        KeyType::SetKey => m.count == c.dom().len(),
        KeyType::ListKey => list_ok(c, m),
        KeyType::SortedListKey => sorted_list_ok(c, m),
        KeyType::SortedSetKey => sorted_set_ok(c, m),
    }
}

/// The metadata record of `name` can be read, has an id below `next_id`, and
/// agrees with its collection.
pub open spec fn meta_ok(s: Contents, name: Seq<u8>, next_id: u64) -> bool {
    match parse_meta(s[meta_key(name)]) {
        Some(m) => m.id < next_id && collection_ok(collection(s, m.id), m),
        None => false,
    }
}

/// Some logical key in use has this id.
pub open spec fn owned(s: Contents, id: u64) -> bool {
    exists|name: Seq<u8>| owns(s, name, id)
}

/// The logical key `name` is in use and has this id.
pub open spec fn owns(s: Contents, name: Seq<u8>, id: u64) -> bool {
    &&& s.contains_key(meta_key(name))
    &&& meta_at(s, name) matches Some(m) && m.id == id
}

/// The store is consistent: it is finite, every metadata record is in order,
/// no two logical keys share an id, and every data key is well formed and
/// carries the id of a logical key in use.
pub open spec fn store_inv(s: Contents, next_id: u64) -> bool {
    &&& s.dom().finite()
    &&& forall|name: Seq<u8>|
        s.contains_key(#[trigger] meta_key(name)) ==> meta_ok(s, name, next_id)
    &&& forall|a: Seq<u8>, b: Seq<u8>|
        s.contains_key(#[trigger] meta_key(a)) && s.contains_key(#[trigger] meta_key(b)) && a != b
            ==> parse_meta(s[meta_key(a)]).unwrap().id != parse_meta(s[meta_key(b)]).unwrap().id
    &&& forall|k: Seq<u8>| #[trigger]
        s.contains_key(k) && is_data_key(k) ==> k.len() >= 10 && owned(s, key_id(k))
}

impl DbView {
    /// The database is consistent.
    pub open spec fn inv(self) -> bool {
        store_inv(self.records, self.next_key_id)
    }

    /// The same database with other contents.
    pub open spec fn with_records(self, records: Contents) -> DbView {
        DbView { records, ..self }
    }

    /// The same database after one more request for a compaction.
    pub open spec fn with_compaction(self, from: Seq<u8>, to: Seq<u8>) -> DbView {
        DbView { compactions: self.compactions.push((from, to)), ..self }
    }
}

/// `s2` holds what `s` holds at every key that is neither the metadata key of
/// `name` nor a data key of the collection `id`.
pub open spec fn same_outside(s: Contents, s2: Contents, name: Seq<u8>, id: u64) -> bool {
    forall|k: Seq<u8>|
        k != meta_key(name) && !in_collection(id, k) ==> (#[trigger] s2.contains_key(k)
            == s.contains_key(k)) && (s.contains_key(k) ==> s2[k] == s[k])
}

/// The prefix of a collection is ten bytes: the data tag and the id.
pub proof fn lemma_data_prefix(id: u64)
    ensures
        data_prefix(id).len() == 10,
        data_prefix(id).subrange(2, 10) == be_bytes(id as nat, 8),
        data_tag().is_prefix_of(data_prefix(id)),
{
    lemma_be_len(id as nat, 8);
    assert(data_prefix(id).subrange(2, 10) =~= be_bytes(id as nat, 8));
    assert(data_prefix(id).subrange(0, 2) =~= data_tag());
}

/// A data key of a collection is at least ten bytes long, starts with the data
/// tag, and carries the id of the collection.
pub proof fn lemma_in_collection(id: u64, k: Seq<u8>)
    requires
        in_collection(id, k),
    ensures
        k.len() >= 10,
        is_data_key(k),
        key_id(k) == id,
        k[0] == 0x64u8,
        k == data_prefix(id) + tail_from(k, 10),
{
    lemma_data_prefix(id);
    let p = data_prefix(id);
    assert(k.subrange(2, 10) =~= p.subrange(2, 10));
    assert(k.subrange(0, 2) =~= data_tag());
    lemma_pow256_values();
    lemma_be_value_of_bytes(id as nat, 8);
    assert(k[0] == p[0]);
    assert(k =~= p + tail_from(k, 10));
}

/// A key made of a collection's prefix and a tail is a data key of it.
pub proof fn lemma_item_key(id: u64, tail: Seq<u8>)
    ensures
        in_collection(id, data_prefix(id) + tail),
        tail_from(data_prefix(id) + tail, 10) == tail,
        (data_prefix(id) + tail).len() == 10 + tail.len(),
{
    lemma_data_prefix(id);
    let k = data_prefix(id) + tail;
    assert(k.subrange(0, 10) =~= data_prefix(id));
    assert(tail_from(k, 10) =~= tail);
}

/// No key belongs to two collections.
pub proof fn lemma_collections_disjoint(a: u64, b: u64, k: Seq<u8>)
    requires
        in_collection(a, k),
        in_collection(b, k),
    ensures
        a == b,
{
    lemma_in_collection(a, k);
    lemma_in_collection(b, k);
}

/// A metadata key is no data key, and names one logical key only.
pub proof fn lemma_meta_key(name: Seq<u8>)
    ensures
        !is_data_key(meta_key(name)),
        forall|id: u64| !in_collection(id, meta_key(name)),
        forall|other: Seq<u8>| #[trigger] meta_key(other) == meta_key(name) ==> other == name,
        tail_from(meta_key(name), 3) == name,
        meta_prefix().is_prefix_of(meta_key(name)),
{
    let mk = meta_key(name);
    assert(mk[0] == 0x6Du8);
    if is_data_key(mk) {
        assert(mk.subrange(0, 2)[0] == data_tag()[0]);
    }
    assert forall|id: u64| !in_collection(id, mk) by {
        if in_collection(id, mk) {
            lemma_in_collection(id, mk);
        }
    }
    assert(tail_from(mk, 3) =~= name);
    assert forall|other: Seq<u8>| #[trigger] meta_key(other) == mk implies other == name by {
        assert(tail_from(meta_key(other), 3) =~= other);
    }
    assert(mk.subrange(0, 3) =~= meta_prefix());
}

/// Writing a key outside a collection leaves the collection as it was;
/// writing one of its keys writes it in the collection.
pub proof fn lemma_collection_insert(s: Contents, id: u64, k: Seq<u8>, v: Seq<u8>)
    ensures
        in_collection(id, k) ==> collection(s.insert(k, v), id) == collection(s, id).insert(k, v),
        !in_collection(id, k) ==> collection(s.insert(k, v), id) == collection(s, id),
{
    if in_collection(id, k) {
        assert(collection(s.insert(k, v), id) =~= collection(s, id).insert(k, v));
    } else {
        assert(collection(s.insert(k, v), id) =~= collection(s, id));
    }
}

/// Removing a key outside a collection leaves the collection as it was;
/// removing one of its keys removes it from the collection.
pub proof fn lemma_collection_remove(s: Contents, id: u64, k: Seq<u8>)
    ensures
        in_collection(id, k) ==> collection(s.remove(k), id) == collection(s, id).remove(k),
        !in_collection(id, k) ==> collection(s.remove(k), id) == collection(s, id),
{
    if in_collection(id, k) {
        assert(collection(s.remove(k), id) =~= collection(s, id).remove(k));
    } else {
        assert(collection(s.remove(k), id) =~= collection(s, id));
    }
}

/// The records of a collection are finitely many when the store is finite.
pub proof fn lemma_collection_finite(s: Contents, id: u64)
    requires
        s.dom().finite(),
    ensures
        collection(s, id).dom().finite(),
{
    let c = collection(s, id);
    assert(c.dom() =~= s.dom().intersect(Set::new(|k: Seq<u8>| in_collection(id, k))));
    vstd::set_lib::lemma_len_intersect(s.dom(), Set::new(|k: Seq<u8>| in_collection(id, k)));
}

/// A change confined to one logical key and its collection keeps the store
/// consistent, provided that the key's metadata record, if one is left,
/// agrees with the collection afterwards, and that the id is the key's own:
/// the one it had, or one not handed out before.
pub proof fn lemma_step(
    s: Contents,
    next_id: u64,
    s2: Contents,
    next_id2: u64,
    name: Seq<u8>,
    id: u64,
)
    requires
        store_inv(s, next_id),
        s2.dom().finite(),
        next_id <= next_id2,
        id < next_id2,
        same_outside(s, s2, name, id),
        s.contains_key(meta_key(name)) ==> parse_meta(s[meta_key(name)]).unwrap().id == id,
        !s.contains_key(meta_key(name)) ==> id >= next_id,
        s2.contains_key(meta_key(name)) ==> match parse_meta(s2[meta_key(name)]) {
            Some(m) => m.id == id && collection_ok(collection(s2, id), m),
            None => false,
        },
        !s2.contains_key(meta_key(name)) ==> is_empty(collection(s2, id)),
    ensures
        store_inv(s2, next_id2),
{
    lemma_meta_key(name);
    assert forall|other: Seq<u8>| s2.contains_key(#[trigger] meta_key(other)) implies meta_ok(
        s2,
        other,
        next_id2,
    ) by {
        if other != name {
            lemma_meta_key(other);
            assert(s.contains_key(meta_key(other)));
            let m = parse_meta(s[meta_key(other)]).unwrap();
            assert(meta_ok(s, other, next_id));
            assert(m.id != id);
            assert(collection(s2, m.id) =~= collection(s, m.id)) by {
                assert forall|k: Seq<u8>| in_collection(m.id, k) implies !in_collection(id, k) && k
                    != meta_key(name) by {
                    if in_collection(id, k) {
                        lemma_collections_disjoint(id, m.id, k);
                    }
                }
            }
        }
    }
    assert forall|a: Seq<u8>, b: Seq<u8>|
        s2.contains_key(#[trigger] meta_key(a)) && s2.contains_key(#[trigger] meta_key(b)) && a
            != b implies parse_meta(s2[meta_key(a)]).unwrap().id != parse_meta(
        s2[meta_key(b)],
    ).unwrap().id by {
        lemma_meta_key(a);
        lemma_meta_key(b);
        if a != name {
            assert(s.contains_key(meta_key(a)));
            assert(meta_ok(s, a, next_id));
        }
        if b != name {
            assert(s.contains_key(meta_key(b)));
            assert(meta_ok(s, b, next_id));
        }
    }
    assert forall|k: Seq<u8>| #[trigger] s2.contains_key(k) && is_data_key(k) implies k.len() >= 10
        && owned(s2, key_id(k)) by {
        if in_collection(id, k) {
            lemma_in_collection(id, k);
            assert(collection(s2, id).contains_key(k));
            assert(owns(s2, name, id));
        } else {
            assert(s.contains_key(k));
            let owner = choose|owner: Seq<u8>| owns(s, owner, key_id(k));
            lemma_data_key(k);
            lemma_meta_key(owner);
            assert(owner != name);
            assert(s2.contains_key(meta_key(owner)));
            assert(owns(s2, owner, key_id(k)));
        }
    }
}

/// A well-formed data key belongs to the collection whose id it carries.
pub proof fn lemma_data_key(k: Seq<u8>)
    requires
        is_data_key(k),
        k.len() >= 10,
    ensures
        in_collection(key_id(k), k),
{
    lemma_be_bytes_of_value(k.subrange(2, 10));
    lemma_pow256_values();
    assert(k.subrange(0, 10) =~= data_tag() + k.subrange(2, 10));
}

/// In a consistent store, a collection with a record belongs to a logical
/// key in use, so its id was handed out.
pub proof fn lemma_owned_below(s: Contents, next_id: u64, id: u64)
    requires
        store_inv(s, next_id),
        owned(s, id),
    ensures
        id < next_id,
{
    let owner = choose|owner: Seq<u8>| owns(s, owner, id);
    assert(meta_ok(s, owner, next_id));
}

/// A collection that counts nothing has no records.
pub proof fn lemma_zero_count_empty(c: Contents, m: MetaView)
    requires
        collection_ok(c, m),
        c.dom().finite(),
        m.count == 0,
    ensures
        is_empty(c),
{
    assert forall|k: Seq<u8>| !c.contains_key(k) by {
        if c.contains_key(k) {
            if m.key_type == KeyType::SortedSetKey {
                if k[10] == forward_tag() {
                    // The record is the one of a member, whose reverse record
                    // would be counted.
                    assert(forward_is_owned(c, m, k));
                    let plain = sorted_set_reverse_key(m.id, tail_from(k, 11));
                    let scored = sorted_set_reverse_key(
                        m.id,
                        sorted_set_pair_of(k, m.score_len()).1,
                    );
                    lemma_data_prefix(m.id);
                    if c.contains_key(plain) {
                        assert(plain[10] == reverse_tag());
                        assert(reverse_keys(c).contains(plain));
                    } else {
                        assert(scored[10] == reverse_tag());
                        assert(reverse_keys(c).contains(scored));
                    }
                } else {
                    assert(reverse_keys(c).contains(k));
                }
            }
        }
    }
}

/// What an operation leaves behind and what it hands back; no result when the
/// request was turned down.
pub struct Outcome<T> {
    pub state: DbView,
    pub result: Option<T>,
}

/// The contents after the metadata record of `name` was saved: written, or
/// removed when it counts nothing and empty records are to be dropped.
pub open spec fn saved(s: Contents, name: Seq<u8>, m: MetaView, drop_if_empty: bool) -> Contents {
    if drop_if_empty && m.count == 0 {
        s.remove(meta_key(name))
    } else {
        s.insert(meta_key(name), encode_meta(m))
    }
}

/// Looks up the metadata record of `name` and, if there is none, creates one
/// of type `t` under the next id. Turned down when no id is left.
pub open spec fn resolve(pre: DbView, name: Seq<u8>, t: KeyType) -> Outcome<MetaView> {
    match meta_at(pre.records, name) {
        Some(m) => Outcome { state: pre, result: Some(m) },
        None => if pre.next_key_id < u64::MAX {
            let m = fresh_meta(pre.next_key_id, t);
            Outcome {
                state: DbView {
                    records: pre.records.insert(meta_key(name), encode_meta(m)),
                    next_key_id: (pre.next_key_id + 1) as u64,
                    ..pre
                },
                result: Some(m),
            }
        } else {
            Outcome { state: pre, result: None }
        },
    }
}

/// A collection whose id was not handed out yet has no records.
pub proof fn lemma_unused_id_empty(s: Contents, next_id: u64, id: u64)
    requires
        store_inv(s, next_id),
        id >= next_id,
    ensures
        collection(s, id) == Map::<Seq<u8>, Seq<u8>>::empty(),
{
    assert forall|k: Seq<u8>| !collection(s, id).contains_key(k) by {
        if collection(s, id).contains_key(k) {
            lemma_in_collection(id, k);
            lemma_owned_below(s, next_id, id);
        }
    }
    assert(collection(s, id) =~= Map::<Seq<u8>, Seq<u8>>::empty());
}

/// A fresh metadata record agrees with a collection that has no records.
pub proof fn lemma_fresh_collection_ok(id: u64, t: KeyType)
    ensures
        collection_ok(Map::<Seq<u8>, Seq<u8>>::empty(), fresh_meta(id, t)),
{
    let c = Map::<Seq<u8>, Seq<u8>>::empty();
    let m = fresh_meta(id, t);
    lemma_fresh_meta_wf(id, t);
    lemma_list_extra(0, 1);
    lemma_sorted_list_extra(0, 0, 0);
    lemma_sorted_set_extra(0, 0);
    assert(c.dom() =~= Set::<Seq<u8>>::empty());
    assert(forward_keys(c) =~= Set::<Seq<u8>>::empty());
    assert(reverse_keys(c) =~= Set::<Seq<u8>>::empty());
}

/// Looking a key up, and creating its record if need be, keeps the database
/// consistent; afterwards the record handed back is the one stored.
pub proof fn lemma_resolve(pre: DbView, name: Seq<u8>, t: KeyType)
    requires
        pre.inv(),
    ensures
        resolve(pre, name, t).state.inv(),
        resolve(pre, name, t).result matches Some(m) ==> meta_at(
            resolve(pre, name, t).state.records,
            name,
        ) == Some(m) && m.id < resolve(pre, name, t).state.next_key_id && m.wf(),
        resolve(pre, name, t).result is None ==> resolve(pre, name, t).state == pre,
        pre.records.contains_key(meta_key(name)) <==> meta_at(pre.records, name) is Some,
{
    let s = pre.records;
    if s.contains_key(meta_key(name)) {
        assert(meta_ok(s, name, pre.next_key_id));
    } else if pre.next_key_id < u64::MAX {
        let m = fresh_meta(pre.next_key_id, t);
        let s2 = s.insert(meta_key(name), encode_meta(m));
        lemma_fresh_meta_wf(pre.next_key_id, t);
        lemma_parse_encode(m);
        lemma_meta_key(name);
        lemma_collection_insert(s, m.id, meta_key(name), encode_meta(m));
        lemma_unused_id_empty(s, pre.next_key_id, m.id);
        lemma_fresh_collection_ok(m.id, t);
        lemma_step(s, pre.next_key_id, s2, (pre.next_key_id + 1) as u64, name, m.id);
    }
}

/// A change to the records of one collection alone keeps the store
/// consistent when the metadata record, left as it was, agrees with the
/// collection as it then is.
pub proof fn lemma_touch_collection(s: Contents, next_id: u64, name: Seq<u8>, s2: Contents)
    requires
        store_inv(s, next_id),
        meta_at(s, name) is Some,
        s2.dom().finite(),
        forall|k: Seq<u8>|
            !in_collection(meta_at(s, name).unwrap().id, k) ==> (#[trigger] s2.contains_key(k)
                == s.contains_key(k)) && (s.contains_key(k) ==> s2[k] == s[k]),
        collection_ok(collection(s2, meta_at(s, name).unwrap().id), meta_at(s, name).unwrap()),
    ensures
        store_inv(s2, next_id),
{
    let m = meta_at(s, name).unwrap();
    lemma_meta_key(name);
    assert(meta_ok(s, name, next_id));
    lemma_step(s, next_id, s2, next_id, name, m.id);
}

/// `n` is the id to hand out next: one, or one more than the greatest id in
/// use.
pub open spec fn is_next_id(s: Contents, n: u64) -> bool {
    &&& n >= 1
    &&& forall|name: Seq<u8>|
        s.contains_key(#[trigger] meta_key(name)) ==> match meta_at(s, name) {
            Some(m) => m.id < n,
            None => false,
        }
    &&& n == 1 || owned(s, (n - 1) as u64)
}

/// Some metadata record stands in the way of opening the store: it cannot
/// be read, or it carries the greatest id there is, after which none is
/// left to hand out.
pub open spec fn has_unusable_meta(s: Contents) -> bool {
    exists|name: Seq<u8>|
        s.contains_key(#[trigger] meta_key(name)) && match meta_at(s, name) {
            Some(m) => m.id == u64::MAX,
            None => true,
        }
}

/// A consistent store stays consistent when the next id is lowered to just
/// above the ids in use.
pub proof fn lemma_inv_lower(s: Contents, n: u64, lower: u64)
    requires
        store_inv(s, n),
        is_next_id(s, lower),
    ensures
        store_inv(s, lower),
{
    assert forall|name: Seq<u8>| s.contains_key(#[trigger] meta_key(name)) implies meta_ok(
        s,
        name,
        lower,
    ) by {
        assert(meta_ok(s, name, n));
    }
}

/// `k` is the least key of `c`.
pub open spec fn is_least_key(c: Contents, k: Seq<u8>) -> bool {
    &&& c.contains_key(k)
    &&& forall|x: Seq<u8>| #[trigger] c.contains_key(x) ==> lex_le(k, x)
}

/// `k` is the greatest key of `c`.
pub open spec fn is_greatest_key(c: Contents, k: Seq<u8>) -> bool {
    &&& c.contains_key(k)
    &&& forall|x: Seq<u8>| #[trigger] c.contains_key(x) ==> lex_le(x, k)
}

/// The least key of `c`, when it has any.
pub open spec fn least_key(c: Contents) -> Seq<u8> {
    choose|k: Seq<u8>| is_least_key(c, k)
}

/// The greatest key of `c`, when it has any.
pub open spec fn greatest_key(c: Contents) -> Seq<u8> {
    choose|k: Seq<u8>| is_greatest_key(c, k)
}

/// `c` has no records.
pub open spec fn is_empty(c: Contents) -> bool {
    forall|k: Seq<u8>| !c.contains_key(k)
}

/// There is one least key at most.
pub proof fn lemma_least_key(c: Contents, k: Seq<u8>)
    requires
        is_least_key(c, k),
    ensures
        least_key(c) == k,
        !is_empty(c),
{
    let k2 = least_key(c);
    assert(is_least_key(c, k2));
    assert(c.contains_key(k2) && c.contains_key(k));
    if k != k2 {
        lemma_lex_asymmetric(k, k2);
    }
}

/// There is one greatest key at most.
pub proof fn lemma_greatest_key(c: Contents, k: Seq<u8>)
    requires
        is_greatest_key(c, k),
    ensures
        greatest_key(c) == k,
        !is_empty(c),
{
    let k2 = greatest_key(c);
    assert(is_greatest_key(c, k2));
    assert(c.contains_key(k2) && c.contains_key(k));
    if k != k2 {
        lemma_lex_asymmetric(k, k2);
    }
}

/// A finite store with a record has a least key.
pub proof fn lemma_least_exists(c: Contents)
    requires
        c.dom().finite(),
        !is_empty(c),
    ensures
        is_least_key(c, least_key(c)),
    decreases c.dom().len(),
{
    let x = choose|x: Seq<u8>| c.contains_key(x);
    let rest = c.remove(x);
    assert(rest.dom() =~= c.dom().remove(x));
    if is_empty(rest) {
        assert forall|y: Seq<u8>| #[trigger] c.contains_key(y) implies lex_le(x, y) by {
            if y != x {
                assert(rest.contains_key(y));
            }
        }
        assert(is_least_key(c, x));
    } else {
        lemma_least_exists(rest);
        let k = least_key(rest);
        lemma_lex_total(x, k);
        if lex_lt(x, k) {
            assert forall|y: Seq<u8>| #[trigger] c.contains_key(y) implies lex_le(x, y) by {
                if y != x {
                    assert(rest.contains_key(y));
                    lemma_lex_lt_le(x, k, y);
                }
            }
            assert(is_least_key(c, x));
        } else {
            assert forall|y: Seq<u8>| #[trigger] c.contains_key(y) implies lex_le(k, y) by {
                if y != x {
                    assert(rest.contains_key(y));
                }
            }
            assert(is_least_key(c, k));
        }
    }
}

/// A finite store with a record has a greatest key.
pub proof fn lemma_greatest_exists(c: Contents)
    requires
        c.dom().finite(),
        !is_empty(c),
    ensures
        is_greatest_key(c, greatest_key(c)),
    decreases c.dom().len(),
{
    let x = choose|x: Seq<u8>| c.contains_key(x);
    let rest = c.remove(x);
    assert(rest.dom() =~= c.dom().remove(x));
    if is_empty(rest) {
        assert forall|y: Seq<u8>| #[trigger] c.contains_key(y) implies lex_le(y, x) by {
            if y != x {
                assert(rest.contains_key(y));
            }
        }
        assert(is_greatest_key(c, x));
    } else {
        lemma_greatest_exists(rest);
        let k = greatest_key(rest);
        lemma_lex_total(x, k);
        if lex_lt(k, x) {
            assert forall|y: Seq<u8>| #[trigger] c.contains_key(y) implies lex_le(y, x) by {
                if y != x {
                    assert(rest.contains_key(y));
                    crate::lex::lemma_lex_le_lt(y, k, x);
                }
            }
            assert(is_greatest_key(c, x));
        } else {
            assert forall|y: Seq<u8>| #[trigger] c.contains_key(y) implies lex_le(y, k) by {
                if y != x {
                    assert(rest.contains_key(y));
                }
            }
            assert(is_greatest_key(c, k));
        }
    }
}

/// The keys of a collection lie before the prefix of every later collection.
pub proof fn lemma_below_later_prefix(id: u64, k: Seq<u8>, later: u64)
    requires
        in_collection(id, k),
        id < later,
    ensures
        lex_lt(k, data_prefix(later)),
{
    lemma_in_collection(id, k);
    lemma_pow256_values();
    lemma_be_order(id as nat, later as nat, 8);
    lemma_be_len(id as nat, 8);
    lemma_be_len(later as nat, 8);
    let a = be_bytes(id as nat, 8);
    let b = be_bytes(later as nat, 8);
    let t = tail_from(k, 10);
    lemma_lex_extend(a, b, t, Seq::<u8>::empty());
    lemma_lex_concat(data_tag(), a + t, b + Seq::<u8>::empty());
    assert(data_tag() + (a + t) =~= k);
    assert(data_tag() + (b + Seq::<u8>::empty()) =~= data_prefix(later));
}

/// The record that a store finds first from a collection's prefix on is the
/// collection's least, if it is of the collection at all; if not, the
/// collection has no records.
pub proof fn lemma_first_of_collection(s: Contents, id: u64, e: Option<Record>)
    requires
        is_first_at_or_after(s, data_prefix(id), e),
    ensures
        match e {
            Some((k, v)) => if in_collection(id, k) {
                is_least_key(collection(s, id), k) && collection(s, id)[k] == v
            } else {
                is_empty(collection(s, id))
            },
            None => is_empty(collection(s, id)),
        },
{
    let c = collection(s, id);
    let p = data_prefix(id);
    assert forall|x: Seq<u8>| #[trigger] c.contains_key(x) implies (match e {
        Some((k, v)) => in_collection(id, k) && lex_le(k, x),
        None => false,
    }) by {
        lemma_prefix_le(p, x);
        assert(s.contains_key(x));
        match e {
            Some((k, v)) => {
                if !in_collection(id, k) {
                    lemma_prefix_le(p, x);
                    if lex_lt(k, p) {
                        lemma_lex_asymmetric(k, p);
                        lemma_lex_irreflexive(k);
                    }
                    lemma_past_prefix(p, x, k);
                    lemma_lex_asymmetric(x, k);
                    lemma_lex_irreflexive(k);
                }
            },
            None => {},
        }
    }
}

/// The record that a store finds last before the end of a collection's range
/// is the collection's greatest, if it is of the collection at all; if not,
/// the collection has no records.
pub proof fn lemma_last_of_collection(s: Contents, next_id: u64, id: u64, e: Option<Record>)
    requires
        store_inv(s, next_id),
        id < u64::MAX,
        is_last_before(s, data_prefix((id + 1) as u64), e),
    ensures
        match e {
            Some((k, v)) => if in_collection(id, k) {
                is_greatest_key(collection(s, id), k) && collection(s, id)[k] == v
            } else {
                is_empty(collection(s, id))
            },
            None => is_empty(collection(s, id)),
        },
{
    let c = collection(s, id);
    let end = data_prefix((id + 1) as u64);
    assert forall|x: Seq<u8>| #[trigger] c.contains_key(x) implies (match e {
        Some((k, v)) => in_collection(id, k) && lex_le(x, k),
        None => false,
    }) by {
        lemma_below_later_prefix(id, x, (id + 1) as u64);
        assert(s.contains_key(x));
        match e {
            Some((k, v)) => {
                if !in_collection(id, k) {
                    lemma_in_collection(id, x);
                    lemma_data_prefix((id + 1) as u64);
                    assert(lex_le(k, end));
                    lemma_between_prefix(data_tag(), x, k, end);
                    let other = key_id(k);
                    assert(k.subrange(0, 10) =~= data_tag() + k.subrange(2, 10));
                    lemma_be_bytes_of_value(k.subrange(2, 10));
                    lemma_pow256_values();
                    assert(in_collection(other, k));
                    if other < id {
                        lemma_below_later_prefix(other, k, id);
                        lemma_prefix_le(data_prefix(id), x);
                        lemma_lex_lt_le(k, data_prefix(id), x);
                        lemma_lex_asymmetric(k, x);
                        lemma_lex_irreflexive(k);
                    } else {
                        if other > id + 1 {
                            lemma_below_later_prefix((id + 1) as u64, end, other);
                            lemma_prefix_le(data_prefix(other), k);
                            lemma_lex_lt_le(end, data_prefix(other), k);
                        } else {
                            lemma_prefix_le(end, k);
                        }
                        lemma_lex_asymmetric(k, end);
                        lemma_lex_irreflexive(k);
                    }
                }
            },
            None => {},
        }
    }
}

/// A change to the records of one collection and to its metadata record
/// keeps the store consistent when the record saved agrees with the
/// collection as it then is.
pub proof fn lemma_update_collection(
    s: Contents,
    next_id: u64,
    name: Seq<u8>,
    mid: Contents,
    m2: MetaView,
    drop_if_empty: bool,
)
    requires
        store_inv(s, next_id),
        meta_at(s, name) is Some,
        mid.dom().finite(),
        forall|k: Seq<u8>|
            !in_collection(meta_at(s, name).unwrap().id, k) ==> (#[trigger] mid.contains_key(k)
                == s.contains_key(k)) && (s.contains_key(k) ==> mid[k] == s[k]),
        m2.id == meta_at(s, name).unwrap().id,
        collection_ok(collection(mid, m2.id), m2),
    ensures
        store_inv(saved(mid, name, m2, drop_if_empty), next_id),
        !(drop_if_empty && m2.count == 0) ==> meta_at(saved(mid, name, m2, drop_if_empty), name)
            == Some(m2),
        drop_if_empty && m2.count == 0 ==> !saved(mid, name, m2, drop_if_empty).contains_key(
            meta_key(name),
        ),
{
    let s2 = saved(mid, name, m2, drop_if_empty);
    let id = m2.id;
    lemma_meta_key(name);
    lemma_parse_encode(m2);
    assert(meta_ok(s, name, next_id));
    if !(drop_if_empty && m2.count == 0) {
        lemma_collection_insert(mid, id, meta_key(name), encode_meta(m2));
    } else {
        lemma_collection_remove(mid, id, meta_key(name));
        lemma_collection_finite(mid, id);
        lemma_zero_count_empty(collection(mid, id), m2);
    }
    lemma_step(s, next_id, s2, next_id, name, id);
}

} // verus!
