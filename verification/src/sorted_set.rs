//! Sorted sets: members that each carry one score, kept in the order of the
//! scores.
//!
//! A member has two records. The forward record has the score and the member
//! in its key and sorts the set; the reverse record has the member in its
//! key and the score as its value, and answers whether a value is a member
//! and under which score. A set stores the length of the first score that
//! is not empty, and takes only scores of that length from then on; until
//! then it takes the empty score, and stores no length.

use vstd::prelude::*;
use vstd::string::StringSliceAdditionalSpecFns;
use crate::codec::{
    data_prefix, data_range_end, encode_data_key_sorted_set_item_with_score,
    encode_data_key_sorted_set_item_without_score, encode_data_prefix, encode_data_range_end,
    fill_empty_data, filler, forward_tag, reverse_tag, sorted_set_forward_key, sorted_set_pair_of,
    sorted_set_prefix, sorted_set_reverse_key, tail_from,
};
use crate::database::{count_of, Database};
use crate::error::{backend_fault, not_text, rejected, score_length_text, Error};
use crate::meta::{lemma_sorted_set_extra, sorted_set_extra, KeyType, MetaView};
use crate::model::{
    collection, collection_ok, forward_is_owned, forward_keys, forward_record_ok, in_collection,
    lemma_collection_finite, lemma_collection_insert, lemma_collection_remove, lemma_data_prefix,
    lemma_in_collection, lemma_resolve, lemma_update_collection, meta_at, meta_ok, owned_by,
    resolve, reverse_keys, reverse_record_ok, saved, sorted_set_ok, sorted_set_sound,
    sorted_set_weak, DbView, Outcome,
};
use crate::sorted_list::{bump_deleted, next_deleted};
use crate::store::{lookup, Contents, KvStore};

verus! {

/// The record of a sorted set whose scores have the length `score_len`.
pub open spec fn with_score_len(m: MetaView, score_len: u8) -> MetaView {
    m.with_extra(sorted_set_extra(m.deleted_count(), score_len))
}

/// Whether a sorted set with record `m` takes a score of this length: the
/// score has 255 bytes at the most, and the stored length if one is stored.
/// A stored length of 0 means that none is stored, whatever the set holds.
pub open spec fn score_fits(m: MetaView, score: Seq<u8>) -> bool {
    &&& score.len() <= 255
    &&& m.score_len() == 0 || score.len() == m.score_len()
}

/// Adds `value` under `score`, or moves it to `score` when it is a member
/// already. Hands back the count. The length of the score is stored when
/// none is stored yet. Turned down, before anything is written, when the
/// score is longer than 255 bytes; turned down as well when the key holds
/// another type of collection, when a length is stored and the score has
/// another, or when the count is at its limit.
pub open spec fn sorted_set_add_spec(
    pre: DbView,
    name: Seq<u8>,
    score: Seq<u8>,
    value: Seq<u8>,
) -> Outcome<u64> {
    let r = resolve(pre, name, KeyType::SortedSetKey);
    if score.len() > 255 {
        Outcome { state: pre, result: None }
    } else {
        match r.result {
            None => Outcome { state: r.state, result: None },
            Some(m) => {
                let s = r.state.records;
                let forward = sorted_set_forward_key(m.id, score, value);
                let reverse = sorted_set_reverse_key(m.id, value);
                if m.key_type != KeyType::SortedSetKey || !score_fits(m, score) {
                    Outcome { state: r.state, result: None }
                } else {
                    match lookup(s, reverse) {
                        Some(old) => Outcome {
                            state: r.state.with_records(
                                saved(
                                    s.remove(sorted_set_forward_key(m.id, old, value)).insert(
                                        forward,
                                        filler(),
                                    ).insert(reverse, score),
                                    name,
                                    with_score_len(m, score.len() as u8),
                                    false,
                                ),
                            ),
                            result: Some(m.count),
                        },
                        None => if m.count == u64::MAX {
                            Outcome { state: r.state, result: None }
                        } else {
                            Outcome {
                                state: r.state.with_records(
                                    saved(
                                        s.insert(forward, filler()).insert(reverse, score),
                                        name,
                                        with_score_len(m, score.len() as u8).with_count(
                                            (m.count + 1) as u64,
                                        ),
                                        false,
                                    ),
                                ),
                                result: Some((m.count + 1) as u64),
                            }
                        },
                    }
                }
            },
        }
    }
}

/// Whether `value` is a member. Turned down when the key holds another type
/// of collection.
pub open spec fn sorted_set_is_member_spec(s: Contents, name: Seq<u8>, value: Seq<u8>) -> Option<
    bool,
> {
    match meta_at(s, name) {
        None => Some(false),
        Some(m) => if m.key_type != KeyType::SortedSetKey {
            None
        } else {
            Some(s.contains_key(sorted_set_reverse_key(m.id, value)))
        },
    }
}

/// Removes `value` and says whether it was a member. The store is asked to
/// compact the set's range each time the count of removals reaches a
/// multiple of `threshold`.
pub open spec fn sorted_set_delete_spec(
    pre: DbView,
    threshold: u32,
    drop_if_empty: bool,
    name: Seq<u8>,
    value: Seq<u8>,
) -> Outcome<bool> {
    match meta_at(pre.records, name) {
        None => Outcome { state: pre, result: Some(false) },
        Some(m) => {
            let s = pre.records;
            let reverse = sorted_set_reverse_key(m.id, value);
            if m.key_type != KeyType::SortedSetKey {
                Outcome { state: pre, result: None }
            } else if !s.contains_key(reverse) {
                Outcome { state: pre, result: Some(false) }
            } else {
                let bumped = next_deleted(m.deleted_count(), threshold);
                let m2 = m.with_count((m.count - 1) as u64).with_extra(
                    sorted_set_extra(bumped.0, m.score_len()),
                );
                let base = if bumped.1 {
                    pre.with_compaction(data_prefix(m.id), data_range_end(m.id))
                } else {
                    pre
                };
                Outcome {
                    state: base.with_records(
                        saved(
                            s.remove(sorted_set_forward_key(m.id, s[reverse], value)).remove(
                                reverse,
                            ),
                            name,
                            m2,
                            drop_if_empty,
                        ),
                    ),
                    result: Some(true),
                }
            }
        },
    }
}

/// What the two keys of a member look like.
pub proof fn lemma_sorted_set_keys(id: u64, score: Seq<u8>, value: Seq<u8>)
    requires
        score.len() <= 255,
    ensures
        in_collection(id, sorted_set_forward_key(id, score, value)),
        in_collection(id, sorted_set_reverse_key(id, value)),
        sorted_set_forward_key(id, score, value).len() == 11 + score.len() + value.len(),
        sorted_set_reverse_key(id, value).len() == 11 + value.len(),
        sorted_set_forward_key(id, score, value)[10] == forward_tag(),
        sorted_set_reverse_key(id, value)[10] == reverse_tag(),
        sorted_set_pair_of(sorted_set_forward_key(id, score, value), score.len() as u8) == (
            score,
            value,
        ),
        tail_from(sorted_set_reverse_key(id, value), 11) == value,
        sorted_set_prefix(id).is_prefix_of(sorted_set_forward_key(id, score, value)),
{
    lemma_data_prefix(id);
    let f = sorted_set_forward_key(id, score, value);
    let r = sorted_set_reverse_key(id, value);
    assert(f.subrange(0, 10) =~= data_prefix(id));
    assert(r.subrange(0, 10) =~= data_prefix(id));
    assert(f.subrange(11, 11 + score.len() as int) =~= score);
    assert(f.subrange(11 + score.len() as int, f.len() as int) =~= value);
    assert(tail_from(r, 11) =~= value);
    assert(f.subrange(0, 11) =~= sorted_set_prefix(id));
}

/// A record of a sorted set is made of the parts that can be read off its
/// key.
pub proof fn lemma_sorted_set_key_parts(id: u64, k: Seq<u8>, score_len: u8)
    requires
        in_collection(id, k),
        k.len() >= 11,
    ensures
        k[10] == reverse_tag() ==> k == sorted_set_reverse_key(id, tail_from(k, 11)),
        k[10] == forward_tag() && k.len() >= 11 + score_len ==> k == sorted_set_forward_key(
            id,
            sorted_set_pair_of(k, score_len).0,
            sorted_set_pair_of(k, score_len).1,
        ) && sorted_set_pair_of(k, score_len).0.len() == score_len,
{
    lemma_data_prefix(id);
    lemma_in_collection(id, k);
    if k[10] == reverse_tag() {
        assert(k =~= sorted_set_reverse_key(id, tail_from(k, 11)));
    }
    if k[10] == forward_tag() && k.len() >= 11 + score_len {
        let pair = sorted_set_pair_of(k, score_len);
        assert(k =~= sorted_set_forward_key(id, pair.0, pair.1));
    }
}

/// The forward record of one member of a sound set is not that of another.
proof fn lemma_forward_of_other(c: Contents, m: MetaView, k: Seq<u8>, reverse: Seq<u8>)
    requires
        sorted_set_sound(c, m),
        forall|x: Seq<u8>| c.contains_key(x) ==> in_collection(m.id, x),
        c.contains_key(k),
        k[10] == reverse_tag(),
        c.contains_key(reverse),
        reverse[10] == reverse_tag(),
        k != reverse,
    ensures
        sorted_set_forward_key(m.id, c[k], tail_from(k, 11)) != sorted_set_forward_key(
            m.id,
            c[reverse],
            tail_from(reverse, 11),
        ),
{
    assert(reverse_record_ok(c, m, k));
    assert(reverse_record_ok(c, m, reverse));
    lemma_sorted_set_keys(m.id, c[k], tail_from(k, 11));
    lemma_sorted_set_keys(m.id, c[reverse], tail_from(reverse, 11));
    lemma_sorted_set_key_parts(m.id, k, m.score_len());
    lemma_sorted_set_key_parts(m.id, reverse, m.score_len());
}

/// The forward record `k` of a sound set names a member; if that member is
/// `value`, then `k` is the forward record that the reverse record of
/// `value` points to.
proof fn lemma_forward_names(c: Contents, m: MetaView, k: Seq<u8>, value: Seq<u8>)
    requires
        sorted_set_sound(c, m),
        forall|x: Seq<u8>| c.contains_key(x) ==> in_collection(m.id, x),
        c.contains_key(k),
        k[10] == forward_tag(),
    ensures
        ({
            let named = sorted_set_pair_of(k, m.score_len()).1;
            &&& c.contains_key(sorted_set_reverse_key(m.id, named))
            &&& sorted_set_reverse_key(m.id, named)[10] == reverse_tag()
            &&& sorted_set_reverse_key(m.id, named) == sorted_set_reverse_key(m.id, value)
                ==> k == sorted_set_forward_key(
                m.id,
                c[sorted_set_reverse_key(m.id, value)],
                value,
            )
        }),
{
    let pair = sorted_set_pair_of(k, m.score_len());
    assert(forward_record_ok(c, m, k));
    lemma_sorted_set_key_parts(m.id, k, m.score_len());
    lemma_sorted_set_keys(m.id, pair.0, pair.1);
    lemma_sorted_set_keys(m.id, pair.0, value);
}

/// A sound set that gains a member under a score of its length, or its first
/// member, stays sound.
pub proof fn lemma_sound_put(c: Contents, m: MetaView, score: Seq<u8>, value: Seq<u8>)
    requires
        m.wf(),
        m.key_type == KeyType::SortedSetKey,
        sorted_set_sound(c, m),
        c.dom().finite(),
        forall|x: Seq<u8>| c.contains_key(x) ==> in_collection(m.id, x),
        score.len() <= 255,
        score.len() == m.score_len() || m.count == 0,
        !c.contains_key(sorted_set_reverse_key(m.id, value)),
        m.count < u64::MAX,
    ensures
        sorted_set_sound(
            c.insert(sorted_set_forward_key(m.id, score, value), filler()).insert(
                sorted_set_reverse_key(m.id, value),
                score,
            ),
            with_score_len(m, score.len() as u8).with_count((m.count + 1) as u64),
        ),
{
    let forward = sorted_set_forward_key(m.id, score, value);
    let reverse = sorted_set_reverse_key(m.id, value);
    let c2 = c.insert(forward, filler()).insert(reverse, score);
    let m2 = with_score_len(m, score.len() as u8).with_count((m.count + 1) as u64);
    lemma_sorted_set_keys(m.id, score, value);
    lemma_sorted_set_extra(m.deleted_count(), score.len() as u8);
    assert forall|k: Seq<u8>| c.contains_key(k) implies m.score_len() == score.len() by {
        if k[10] == forward_tag() {
            assert(forward_keys(c).contains(k));
        } else {
            assert(reverse_keys(c).contains(k));
        }
    }
    if c.contains_key(forward) {
        assert(forward_record_ok(c, m, forward));
    }
    assert(forward_keys(c2) =~= forward_keys(c).insert(forward));
    assert(reverse_keys(c2) =~= reverse_keys(c).insert(reverse));
    assert forall|k: Seq<u8>| #[trigger]
        c2.contains_key(k) && k[10] == reverse_tag() implies reverse_record_ok(c2, m2, k) by {
        if k != reverse {
            assert(reverse_record_ok(c, m, k));
        }
    }
    assert forall|k: Seq<u8>| #[trigger]
        c2.contains_key(k) && k[10] == forward_tag() implies forward_record_ok(c2, m2, k) by {
        if k != forward {
            assert(forward_record_ok(c, m, k));
        }
    }
}

/// A sound set in which a member moves to another score of the set's length
/// stays sound.
pub proof fn lemma_sound_move(c: Contents, m: MetaView, score: Seq<u8>, value: Seq<u8>)
    requires
        m.wf(),
        m.key_type == KeyType::SortedSetKey,
        sorted_set_sound(c, m),
        c.dom().finite(),
        forall|x: Seq<u8>| c.contains_key(x) ==> in_collection(m.id, x),
        score.len() <= 255,
        score.len() == m.score_len(),
        c.contains_key(sorted_set_reverse_key(m.id, value)),
    ensures
        sorted_set_sound(
            c.remove(
                sorted_set_forward_key(m.id, c[sorted_set_reverse_key(m.id, value)], value),
            ).insert(sorted_set_forward_key(m.id, score, value), filler()).insert(
                sorted_set_reverse_key(m.id, value),
                score,
            ),
            with_score_len(m, score.len() as u8),
        ),
{
    let reverse = sorted_set_reverse_key(m.id, value);
    let old = c[reverse];
    let gone = sorted_set_forward_key(m.id, old, value);
    let forward = sorted_set_forward_key(m.id, score, value);
    let c2 = c.remove(gone).insert(forward, filler()).insert(reverse, score);
    let m2 = with_score_len(m, score.len() as u8);
    lemma_sorted_set_extra(m.deleted_count(), score.len() as u8);
    lemma_sorted_set_keys(m.id, score, value);
    lemma_sorted_set_keys(m.id, Seq::empty(), value);
    assert(reverse_record_ok(c, m, reverse));
    lemma_sorted_set_keys(m.id, old, value);
    if c.contains_key(forward) {
        assert(forward_record_ok(c, m, forward));
    }
    assert(forward_keys(c2) =~= forward_keys(c).remove(gone).insert(forward));
    assert(reverse_keys(c2) =~= reverse_keys(c));
    assert forall|k: Seq<u8>| #[trigger]
        c2.contains_key(k) && k[10] == reverse_tag() implies reverse_record_ok(c2, m2, k) by {
        if k != reverse {
            assert(reverse_record_ok(c, m, k));
            lemma_forward_of_other(c, m, k, reverse);
        }
    }
    assert forall|k: Seq<u8>| #[trigger]
        c2.contains_key(k) && k[10] == forward_tag() implies forward_record_ok(c2, m2, k) by {
        if k != forward {
            assert(forward_record_ok(c, m, k));
            lemma_forward_names(c, m, k, value);
        }
    }
}

/// A sound set that loses a member stays sound.
pub proof fn lemma_sound_take(c: Contents, m: MetaView, value: Seq<u8>, deleted: u32)
    requires
        m.wf(),
        m.key_type == KeyType::SortedSetKey,
        sorted_set_sound(c, m),
        c.dom().finite(),
        forall|x: Seq<u8>| c.contains_key(x) ==> in_collection(m.id, x),
        c.contains_key(sorted_set_reverse_key(m.id, value)),
    ensures
        sorted_set_sound(
            c.remove(
                sorted_set_forward_key(m.id, c[sorted_set_reverse_key(m.id, value)], value),
            ).remove(sorted_set_reverse_key(m.id, value)),
            m.with_count((m.count - 1) as u64).with_extra(
                sorted_set_extra(deleted, m.score_len()),
            ),
        ),
{
    let reverse = sorted_set_reverse_key(m.id, value);
    let old = c[reverse];
    let gone = sorted_set_forward_key(m.id, old, value);
    let c2 = c.remove(gone).remove(reverse);
    let m2 = m.with_count((m.count - 1) as u64).with_extra(
        sorted_set_extra(deleted, m.score_len()),
    );
    lemma_sorted_set_keys(m.id, Seq::empty(), value);
    assert(reverse_record_ok(c, m, reverse));
    lemma_sorted_set_keys(m.id, old, value);
    lemma_sorted_set_extra(deleted, m.score_len());
    assert(m2.score_len() == m.score_len());
    assert(m.count >= 1 && m2.count == forward_keys(c2).len() && m2.count == reverse_keys(
        c2,
    ).len()) by {
        assert(reverse_keys(c).contains(reverse));
        assert(forward_keys(c).contains(gone));
        assert(forward_keys(c2) =~= forward_keys(c).remove(gone));
        assert(reverse_keys(c2) =~= reverse_keys(c).remove(reverse));
    }
    assert forall|k: Seq<u8>| #[trigger] c2.contains_key(k) implies k.len() >= 11 && (k[10]
        == forward_tag() || k[10] == reverse_tag()) by {
        assert(c.contains_key(k));
    }
    assert forall|k: Seq<u8>| #[trigger]
        c2.contains_key(k) && k[10] == reverse_tag() implies reverse_record_ok(c2, m2, k) by {
        assert(c.contains_key(k));
        assert(reverse_record_ok(c, m, k));
        lemma_forward_of_other(c, m, k, reverse);
        lemma_sorted_set_keys(m.id, c[k], tail_from(k, 11));
    }
    assert forall|k: Seq<u8>| #[trigger]
        c2.contains_key(k) && k[10] == forward_tag() implies forward_record_ok(c2, m2, k) by {
        assert(c.contains_key(k));
        assert(forward_record_ok(c, m, k));
        lemma_forward_names(c, m, k, value);
    }
}

/// A forward record that is the one of a member stays so when the records of
/// the set change, as long as the member's reverse record stays as it is,
/// and the stored length stays or was none.
proof fn lemma_still_owned(
    c: Contents,
    m: MetaView,
    c2: Contents,
    m2: MetaView,
    k: Seq<u8>,
    value: Seq<u8>,
)
    requires
        sorted_set_weak(c, m),
        c.contains_key(k),
        k[10] == forward_tag(),
        m2.id == m.id,
        m2.score_len() == m.score_len() || m.score_len() == 0,
        forall|v: Seq<u8>|
            v != value && c.contains_key(#[trigger] sorted_set_reverse_key(m.id, v))
                ==> c2.contains_key(sorted_set_reverse_key(m.id, v)) && c2[sorted_set_reverse_key(
                m.id,
                v,
            )] == c[sorted_set_reverse_key(m.id, v)],
        !owned_by(c, m, k, value),
    ensures
        forward_is_owned(c2, m2, k),
{
    assert(forward_is_owned(c, m, k));
    let plain = tail_from(k, 11);
    let named = sorted_set_pair_of(k, m.score_len()).1;
    if m.score_len() == 0 {
        assert(named =~= plain);
    }
    if owned_by(c, m, k, plain) {
        assert(c.contains_key(sorted_set_reverse_key(m.id, plain)));
        assert(owned_by(c2, m2, k, plain));
    } else {
        assert(c.contains_key(sorted_set_reverse_key(m.id, named)));
        assert(owned_by(c2, m2, k, named));
    }
}

/// What holds of every sorted set holds of one that gained a member.
pub proof fn lemma_weak_put(c: Contents, m: MetaView, score: Seq<u8>, value: Seq<u8>)
    requires
        m.wf(),
        m.key_type == KeyType::SortedSetKey,
        sorted_set_weak(c, m),
        c.dom().finite(),
        forall|x: Seq<u8>| c.contains_key(x) ==> in_collection(m.id, x),
        score_fits(m, score),
        !c.contains_key(sorted_set_reverse_key(m.id, value)),
        m.count < u64::MAX,
    ensures
        with_score_len(m, score.len() as u8).wf(),
        with_score_len(m, score.len() as u8).score_len() == score.len(),
        sorted_set_weak(
            c.insert(sorted_set_forward_key(m.id, score, value), filler()).insert(
                sorted_set_reverse_key(m.id, value),
                score,
            ),
            with_score_len(m, score.len() as u8).with_count((m.count + 1) as u64),
        ),
{
    let forward = sorted_set_forward_key(m.id, score, value);
    let reverse = sorted_set_reverse_key(m.id, value);
    let c2 = c.insert(forward, filler()).insert(reverse, score);
    let m2 = with_score_len(m, score.len() as u8).with_count((m.count + 1) as u64);
    lemma_sorted_set_keys(m.id, score, value);
    lemma_sorted_set_extra(m.deleted_count(), score.len() as u8);
    assert(reverse_keys(c2) =~= reverse_keys(c).insert(reverse));
    assert forall|k: Seq<u8>| #[trigger]
        c2.contains_key(k) && k[10] == forward_tag() implies forward_is_owned(c2, m2, k) by {
        if k == forward {
            assert(owned_by(c2, m2, k, value));
        } else {
            lemma_still_owned(c, m, c2, m2, k, value);
        }
    }
}

/// What holds of every sorted set holds of one in which a member moved to
/// another score.
pub proof fn lemma_weak_move(c: Contents, m: MetaView, score: Seq<u8>, value: Seq<u8>)
    requires
        m.wf(),
        m.key_type == KeyType::SortedSetKey,
        sorted_set_weak(c, m),
        c.dom().finite(),
        forall|x: Seq<u8>| c.contains_key(x) ==> in_collection(m.id, x),
        score_fits(m, score),
        c.contains_key(sorted_set_reverse_key(m.id, value)),
    ensures
        with_score_len(m, score.len() as u8).wf(),
        with_score_len(m, score.len() as u8).score_len() == score.len(),
        sorted_set_weak(
            c.remove(
                sorted_set_forward_key(m.id, c[sorted_set_reverse_key(m.id, value)], value),
            ).insert(sorted_set_forward_key(m.id, score, value), filler()).insert(
                sorted_set_reverse_key(m.id, value),
                score,
            ),
            with_score_len(m, score.len() as u8),
        ),
{
    let reverse = sorted_set_reverse_key(m.id, value);
    let old = c[reverse];
    let gone = sorted_set_forward_key(m.id, old, value);
    let forward = sorted_set_forward_key(m.id, score, value);
    let c2 = c.remove(gone).insert(forward, filler()).insert(reverse, score);
    let m2 = with_score_len(m, score.len() as u8);
    lemma_sorted_set_keys(m.id, score, value);
    lemma_sorted_set_keys(m.id, Seq::empty(), value);
    lemma_sorted_set_extra(m.deleted_count(), score.len() as u8);
    assert(c[reverse].len() <= 255);
    lemma_sorted_set_keys(m.id, old, value);
    assert(reverse_keys(c2) =~= reverse_keys(c));
    assert forall|v: Seq<u8>|
        v != value && c.contains_key(
            #[trigger] sorted_set_reverse_key(m.id, v),
        ) implies c2.contains_key(sorted_set_reverse_key(m.id, v)) && c2[sorted_set_reverse_key(
        m.id,
        v,
    )] == c[sorted_set_reverse_key(m.id, v)] by {
        lemma_sorted_set_keys(m.id, Seq::empty(), v);
    }
    assert forall|k: Seq<u8>| #[trigger]
        c2.contains_key(k) && k[10] == forward_tag() implies forward_is_owned(c2, m2, k) by {
        if k == forward {
            assert(owned_by(c2, m2, k, value));
        } else {
            lemma_still_owned(c, m, c2, m2, k, value);
        }
    }
}

/// What holds of every sorted set holds of one that lost a member.
pub proof fn lemma_weak_take(c: Contents, m: MetaView, value: Seq<u8>, deleted: u32)
    requires
        m.wf(),
        m.key_type == KeyType::SortedSetKey,
        sorted_set_weak(c, m),
        c.dom().finite(),
        forall|x: Seq<u8>| c.contains_key(x) ==> in_collection(m.id, x),
        c.contains_key(sorted_set_reverse_key(m.id, value)),
    ensures
        m.count >= 1,
        m.with_extra(sorted_set_extra(deleted, m.score_len())).wf(),
        sorted_set_weak(
            c.remove(
                sorted_set_forward_key(m.id, c[sorted_set_reverse_key(m.id, value)], value),
            ).remove(sorted_set_reverse_key(m.id, value)),
            m.with_count((m.count - 1) as u64).with_extra(
                sorted_set_extra(deleted, m.score_len()),
            ),
        ),
{
    let reverse = sorted_set_reverse_key(m.id, value);
    let old = c[reverse];
    let gone = sorted_set_forward_key(m.id, old, value);
    let c2 = c.remove(gone).remove(reverse);
    let m2 = m.with_count((m.count - 1) as u64).with_extra(
        sorted_set_extra(deleted, m.score_len()),
    );
    lemma_sorted_set_keys(m.id, Seq::empty(), value);
    assert(c[reverse].len() <= 255);
    lemma_sorted_set_keys(m.id, old, value);
    lemma_sorted_set_extra(deleted, m.score_len());
    assert(reverse_keys(c).contains(reverse));
    assert(reverse_keys(c2) =~= reverse_keys(c).remove(reverse));
    assert forall|v: Seq<u8>|
        v != value && c.contains_key(
            #[trigger] sorted_set_reverse_key(m.id, v),
        ) implies c2.contains_key(sorted_set_reverse_key(m.id, v)) && c2[sorted_set_reverse_key(
        m.id,
        v,
    )] == c[sorted_set_reverse_key(m.id, v)] by {
        lemma_sorted_set_keys(m.id, Seq::empty(), v);
    }
    assert forall|k: Seq<u8>| #[trigger]
        c2.contains_key(k) && k[10] == forward_tag() implies forward_is_owned(c2, m2, k) by {
        lemma_still_owned(c, m, c2, m2, k, value);
    }
}

/// A sorted set that gains a member stays in order under a count one more.
pub proof fn lemma_sorted_set_put(c: Contents, m: MetaView, score: Seq<u8>, value: Seq<u8>)
    requires
        m.key_type == KeyType::SortedSetKey,
        collection_ok(c, m),
        c.dom().finite(),
        forall|x: Seq<u8>| c.contains_key(x) ==> in_collection(m.id, x),
        score_fits(m, score),
        !c.contains_key(sorted_set_reverse_key(m.id, value)),
        m.count < u64::MAX,
    ensures
        collection_ok(
            c.insert(sorted_set_forward_key(m.id, score, value), filler()).insert(
                sorted_set_reverse_key(m.id, value),
                score,
            ),
            with_score_len(m, score.len() as u8).with_count((m.count + 1) as u64),
        ),
{
    lemma_weak_put(c, m, score, value);
    if score.len() == 0 && m.score_len() == 0 {
        lemma_sound_put(c, m, score, value);
    }
}

/// A sorted set in which a member moves to another score stays in order
/// under the same count.
pub proof fn lemma_sorted_set_move(c: Contents, m: MetaView, score: Seq<u8>, value: Seq<u8>)
    requires
        m.key_type == KeyType::SortedSetKey,
        collection_ok(c, m),
        c.dom().finite(),
        forall|x: Seq<u8>| c.contains_key(x) ==> in_collection(m.id, x),
        score_fits(m, score),
        c.contains_key(sorted_set_reverse_key(m.id, value)),
    ensures
        collection_ok(
            c.remove(
                sorted_set_forward_key(m.id, c[sorted_set_reverse_key(m.id, value)], value),
            ).insert(sorted_set_forward_key(m.id, score, value), filler()).insert(
                sorted_set_reverse_key(m.id, value),
                score,
            ),
            with_score_len(m, score.len() as u8),
        ),
{
    lemma_weak_move(c, m, score, value);
    if score.len() == 0 && m.score_len() == 0 {
        lemma_sound_move(c, m, score, value);
    }
}

/// A sorted set that loses a member stays in order under a count one less.
pub proof fn lemma_sorted_set_take(c: Contents, m: MetaView, value: Seq<u8>, deleted: u32)
    requires
        m.key_type == KeyType::SortedSetKey,
        collection_ok(c, m),
        c.dom().finite(),
        forall|x: Seq<u8>| c.contains_key(x) ==> in_collection(m.id, x),
        c.contains_key(sorted_set_reverse_key(m.id, value)),
    ensures
        m.count >= 1,
        collection_ok(
            c.remove(
                sorted_set_forward_key(m.id, c[sorted_set_reverse_key(m.id, value)], value),
            ).remove(sorted_set_reverse_key(m.id, value)),
            m.with_count((m.count - 1) as u64).with_extra(
                sorted_set_extra(deleted, m.score_len()),
            ),
        ),
{
    lemma_weak_take(c, m, value, deleted);
    if m.score_len() == 0 {
        lemma_sound_take(c, m, value, deleted);
    }
}

impl<S: KvStore> Database<S> {
    /// The number of members of the sorted set of `key`.
    pub fn sorted_set_count(&self, key: &str) -> (r: Result<u64, Error>)
        ensures
            backend_fault(r) ==> !self.store.reliable(),
            !not_text(r),
            self@.inv() ==> !rejected(r),
            r matches Ok(n) ==> n == count_of(self@.records, key.spec_bytes()),
    {
        self.get_count(key.as_bytes())
    }

    /// Adds `value` to the sorted set of `key` under `score`, or moves it
    /// there, and hands back the count.
    pub fn sorted_set_add(&mut self, key: &str, score: &[u8], value: &[u8]) -> (r: Result<
        u64,
        Error,
    >)
        ensures
            final(self).options == old(self).options,
            final(self).store.reliable() == old(self).store.reliable(),
            backend_fault(r) ==> !old(self).store.reliable(),
            !not_text(r),
            old(self)@.inv() && !backend_fault(r) ==> {
                let out = sorted_set_add_spec(old(self)@, key.spec_bytes(), score@, value@);
                &&& final(self)@ == out.state
                &&& final(self)@.inv()
                &&& match r {
                    Ok(n) => out.result == Some(n),
                    Err(_) => out.result is None,
                }
            },
    {
        let name = key.as_bytes();
        let ghost pre = self@;
        if score.len() > 255 {
            return Err(Error::message("a score has 255 bytes at the most"));
        }
        proof {
            if pre.inv() {
                lemma_resolve(pre, name@, KeyType::SortedSetKey);
            }
        }
        let mut meta = self.get_or_create_meta(name, KeyType::SortedSetKey)?;
        let ghost mid = self@;
        let ghost m = meta@;
        let ghost c = collection(mid.records, m.id);
        match meta.key_type {
            KeyType::SortedSetKey => {},
            _ => {
                return Err(Error::message("the key holds a collection of another type"));
            },
        }
        if meta.extra.len() != 5 {
            return Err(Error::message("the metadata record cannot be read"));
        }
        let (deleted_count, score_len) = meta.decode_sorted_set_extra();
        if score_len != 0 && score_len as usize != score.len() {
            return Err(Error::Message(score_length_text(score_len, score.len())));
        }
        let forward = encode_data_key_sorted_set_item_with_score(meta.id, score, value);
        let reverse = encode_data_key_sorted_set_item_without_score(meta.id, value);
        let filler = fill_empty_data();
        let known = match self.store.get(reverse.as_slice()) {
            Ok(known) => known,
            Err(e) => {
                return Err(Error::Backend(e));
            },
        };
        proof {
            if pre.inv() {
                assert(meta_ok(mid.records, name@, mid.next_key_id));
                lemma_collection_finite(mid.records, m.id);
                lemma_sorted_set_keys(m.id, score@, value@);
            }
        }
        match known {
            Some(old_score) => {
                let gone = encode_data_key_sorted_set_item_with_score(
                    meta.id,
                    old_score.as_slice(),
                    value,
                );
                match self.store.delete(gone.as_slice()) {
                    Ok(()) => {},
                    Err(e) => {
                        return Err(Error::Backend(e));
                    },
                }
                match self.store.put(forward.as_slice(), filler.as_slice()) {
                    Ok(()) => {},
                    Err(e) => {
                        return Err(Error::Backend(e));
                    },
                }
                match self.store.put(reverse.as_slice(), score) {
                    Ok(()) => {},
                    Err(e) => {
                        return Err(Error::Backend(e));
                    },
                }
                // The score may be the first with a length: the record is
                // saved with it.
                meta.encode_sorted_set_extra(deleted_count, score.len() as u8);
                self.save_meta(name, &meta, false)?;
                proof {
                    if pre.inv() {
                        let s = mid.records;
                        assert(c.contains_key(reverse@));
                        assert(old_score@.len() <= 255);
                        lemma_sorted_set_keys(m.id, old_score@, value@);
                        lemma_sorted_set_move(c, m, score@, value@);
                        lemma_collection_remove(s, m.id, gone@);
                        lemma_collection_insert(s.remove(gone@), m.id, forward@, filler@);
                        lemma_collection_insert(
                            s.remove(gone@).insert(forward@, filler@),
                            m.id,
                            reverse@,
                            score@,
                        );
                        lemma_update_collection(
                            s,
                            mid.next_key_id,
                            name@,
                            s.remove(gone@).insert(forward@, filler@).insert(reverse@, score@),
                            meta@,
                            false,
                        );
                    }
                }
                Ok(meta.count)
            },
            None => {
                if meta.count == u64::MAX {
                    return Err(Error::message("the sorted set cannot take more members"));
                }
                meta.encode_sorted_set_extra(deleted_count, score.len() as u8);
                meta.count = meta.count + 1;
                match self.store.put(forward.as_slice(), filler.as_slice()) {
                    Ok(()) => {},
                    Err(e) => {
                        return Err(Error::Backend(e));
                    },
                }
                match self.store.put(reverse.as_slice(), score) {
                    Ok(()) => {},
                    Err(e) => {
                        return Err(Error::Backend(e));
                    },
                }
                self.save_meta(name, &meta, false)?;
                proof {
                    if pre.inv() {
                        let s = mid.records;
                        lemma_sorted_set_put(c, m, score@, value@);
                        lemma_collection_insert(s, m.id, forward@, filler@);
                        lemma_collection_insert(
                            s.insert(forward@, filler@),
                            m.id,
                            reverse@,
                            score@,
                        );
                        lemma_update_collection(
                            s,
                            mid.next_key_id,
                            name@,
                            s.insert(forward@, filler@).insert(reverse@, score@),
                            meta@,
                            false,
                        );
                    }
                }
                Ok(meta.count)
            },
        }
    }

    /// Whether `value` is a member of the sorted set of `key`.
    pub fn sorted_set_is_member(&self, key: &str, value: &[u8]) -> (r: Result<bool, Error>)
        ensures
            backend_fault(r) ==> !self.store.reliable(),
            !not_text(r),
            self@.inv() && !backend_fault(r) ==> match r {
                Ok(b) => sorted_set_is_member_spec(self@.records, key.spec_bytes(), value@) == Some(
                    b,
                ),
                Err(_) => sorted_set_is_member_spec(self@.records, key.spec_bytes(), value@)
                    is None,
            },
    {
        match self.get_meta(key.as_bytes())? {
            None => Ok(false),
            Some(meta) => {
                match meta.key_type {
                    KeyType::SortedSetKey => {},
                    _ => {
                        return Err(Error::message("the key holds a collection of another type"));
                    },
                }
                let reverse = encode_data_key_sorted_set_item_without_score(meta.id, value);
                match self.store.get(reverse.as_slice()) {
                    Ok(known) => Ok(known.is_some()),
                    Err(e) => Err(Error::Backend(e)),
                }
            },
        }
    }

    /// Removes `value` from the sorted set of `key` and says whether it was
    /// a member.
    pub fn sorted_set_delete(&mut self, key: &str, value: &[u8]) -> (r: Result<bool, Error>)
        ensures
            final(self).options == old(self).options,
            final(self).store.reliable() == old(self).store.reliable(),
            backend_fault(r) ==> !old(self).store.reliable(),
            !not_text(r),
            old(self)@.inv() && !backend_fault(r) ==> {
                let out = sorted_set_delete_spec(
                    old(self)@,
                    old(self).options.sorted_list_compact_deletes_count,
                    old(self).options.delete_meta_when_empty,
                    key.spec_bytes(),
                    value@,
                );
                &&& final(self)@ == out.state
                &&& final(self)@.inv()
                &&& match r {
                    Ok(b) => out.result == Some(b),
                    Err(_) => out.result is None,
                }
            },
    {
        let name = key.as_bytes();
        let ghost pre = self@;
        let mut meta = match self.get_meta(name)? {
            None => {
                return Ok(false);
            },
            Some(meta) => meta,
        };
        let ghost m = meta@;
        let ghost c = collection(pre.records, m.id);
        match meta.key_type {
            KeyType::SortedSetKey => {},
            _ => {
                return Err(Error::message("the key holds a collection of another type"));
            },
        }
        let (deleted_count, score_len) = meta.decode_sorted_set_extra();
        let reverse = encode_data_key_sorted_set_item_without_score(meta.id, value);
        let known = match self.store.get(reverse.as_slice()) {
            Ok(known) => known,
            Err(e) => {
                return Err(Error::Backend(e));
            },
        };
        let score = match known {
            None => {
                return Ok(false);
            },
            Some(score) => score,
        };
        proof {
            if pre.inv() {
                assert(meta_ok(pre.records, name@, pre.next_key_id));
                lemma_collection_finite(pre.records, m.id);
                lemma_sorted_set_keys(m.id, Seq::empty(), value@);
                assert(pre.records.contains_key(reverse@));
                assert(c.contains_key(reverse@));
                assert(sorted_set_ok(c, m));
                assert(score@.len() <= 255);
                lemma_sorted_set_keys(m.id, score@, value@);
                lemma_sorted_set_take(c, m, value@, 0);
            }
        }
        if meta.count == 0 {
            return Err(Error::message("the count does not match the records"));
        }
        let forward = encode_data_key_sorted_set_item_with_score(meta.id, score.as_slice(), value);
        match self.store.delete(forward.as_slice()) {
            Ok(()) => {},
            Err(e) => {
                return Err(Error::Backend(e));
            },
        }
        match self.store.delete(reverse.as_slice()) {
            Ok(()) => {},
            Err(e) => {
                return Err(Error::Backend(e));
            },
        }
        meta.count = meta.count - 1;
        let (deleted, compact) = bump_deleted(
            deleted_count,
            self.options.sorted_list_compact_deletes_count,
        );
        if compact {
            let from = encode_data_prefix(meta.id);
            let to = encode_data_range_end(meta.id);
            self.store.compact_range(from.as_slice(), to.as_slice());
        }
        meta.encode_sorted_set_extra(deleted, score_len);
        self.save_meta(name, &meta, true)?;
        proof {
            if pre.inv() {
                let s = pre.records;
                lemma_sorted_set_take(c, m, value@, deleted);
                lemma_collection_remove(s, m.id, forward@);
                lemma_collection_remove(s.remove(forward@), m.id, reverse@);
                lemma_update_collection(
                    s,
                    pre.next_key_id,
                    name@,
                    s.remove(forward@).remove(reverse@),
                    meta@,
                    self.options.delete_meta_when_empty,
                );
            }
        }
        Ok(true)
    }
}

} // verus!
