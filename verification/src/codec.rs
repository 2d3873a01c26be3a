//! The byte layout of the keys.
//!
//! A metadata key is a fixed tag followed by the logical key. A data key is
//! another tag, the id of the collection in eight big-endian bytes, and a tail
//! that depends on the collection's type. All records of one collection thus
//! share a ten-byte prefix, and within it the tails sort the items.

use vstd::prelude::*;
use vstd::slice::{slice_subrange, slice_to_vec};
use vstd::utf8::{decode_utf8, valid_utf8};
use bytes::{BufMut, BytesMut};
use std::string::FromUtf8Error;
use crate::bigendian::{be_bytes, bias_position, biased, encode_u64};

verus! {

/// `std::string::FromUtf8Error`, what `String::from_utf8` hands back when the
/// bytes are not text. It is carried through as it is.
#[verifier::external_type_specification]
#[verifier::external_body]
pub struct ExFromUtf8Error(FromUtf8Error);

/// The tag that starts every metadata key.
pub open spec fn meta_prefix() -> Seq<u8> {
    seq![0x6Du8, 0x6Du8, 0x3Au8]
}

/// The tag that starts every data key.
pub open spec fn data_tag() -> Seq<u8> {
    seq![0x64u8, 0x3Au8]
}

/// The byte stored as the value of a record whose key says everything.
pub open spec fn filler() -> Seq<u8> {
    seq![0u8]
}

/// The tag of a sorted set's score-ordered records.
pub open spec fn forward_tag() -> u8 {
    0u8
}

/// The tag of a sorted set's member-lookup records.
pub open spec fn reverse_tag() -> u8 {
    1u8
}

/// What is left of `key` after its first `n` bytes; nothing when it is shorter.
pub open spec fn tail_from(key: Seq<u8>, n: int) -> Seq<u8> {
    if 0 <= n <= key.len() {
        key.subrange(n, key.len() as int)
    } else {
        Seq::empty()
    }
}

/// The metadata key of a logical key.
pub open spec fn meta_key(name: Seq<u8>) -> Seq<u8> {
    meta_prefix() + name
}

/// The prefix shared by all data keys of the collection with this id.
pub open spec fn data_prefix(id: u64) -> Seq<u8> {
    data_tag() + be_bytes(id as nat, 8)
}

/// The least byte string that sorts after every data key of the collection.
pub open spec fn data_range_end(id: u64) -> Seq<u8> {
    if id < u64::MAX {
        data_prefix((id + 1) as u64)
    } else {
        seq![0x64u8, 0x3Bu8]
    }
}

/// The data key of a map field or of a set member.
pub open spec fn item_key(id: u64, tail: Seq<u8>) -> Seq<u8> {
    data_prefix(id) + tail
}

/// The data key of the list item at a position.
pub open spec fn list_item_key(id: u64, position: i64) -> Seq<u8> {
    data_prefix(id) + be_bytes(biased(position), 8)
}

/// The data key of a sorted-list item.
pub open spec fn sorted_list_item_key(id: u64, score: Seq<u8>, sequence: u64) -> Seq<u8> {
    data_prefix(id) + score + be_bytes(sequence as nat, 8)
}

/// The prefix of a sorted set's score-ordered records.
pub open spec fn sorted_set_prefix(id: u64) -> Seq<u8> {
    data_prefix(id).push(forward_tag())
}

/// The prefix of a sorted set's member-lookup records.
pub open spec fn sorted_set_reverse_prefix(id: u64) -> Seq<u8> {
    data_prefix(id).push(reverse_tag())
}

/// The key of a member's score-ordered record.
pub open spec fn sorted_set_forward_key(id: u64, score: Seq<u8>, value: Seq<u8>) -> Seq<u8> {
    sorted_set_prefix(id) + score + value
}

/// The key of a member's lookup record.
pub open spec fn sorted_set_reverse_key(id: u64, value: Seq<u8>) -> Seq<u8> {
    sorted_set_reverse_prefix(id) + value
}

/// The score held in a sorted-list data key: what lies between the prefix and
/// the trailing sequence number.
pub open spec fn sorted_list_score_of(key: Seq<u8>) -> Seq<u8> {
    if key.len() >= 18 {
        key.subrange(10, key.len() - 8)
    } else {
        Seq::empty()
    }
}

/// The score and the member held in a sorted set's score-ordered key, for
/// scores of `score_len` bytes.
pub open spec fn sorted_set_pair_of(key: Seq<u8>, score_len: u8) -> (Seq<u8>, Seq<u8>) {
    if key.len() >= 11 + score_len {
        (key.subrange(11, 11 + score_len), key.subrange(11 + score_len, key.len() as int))
    } else {
        (tail_from(key, 11), Seq::empty())
    }
}

/// Appends `tail` to `head` with `bytes::BytesMut::put_slice`, which extends
/// the buffer by the bytes of the slice it is given. The result is taken to be
/// the bytes of `head` followed by those of `tail`.
#[verifier::external_body]
pub(crate) fn join_bytes(head: &[u8], tail: &[u8]) -> (r: Vec<u8>)
    ensures
        r@ == head@ + tail@,
{
    let mut buf = BytesMut::new();
    buf.put_slice(head);
    buf.put_slice(tail);
    buf.to_vec()
}

/// Decodes bytes with `String::from_utf8`, which succeeds exactly on
/// well-formed UTF-8 and then yields the text that the bytes encode.
#[verifier::external_body]
fn string_from_utf8(bytes: Vec<u8>) -> (r: Result<String, FromUtf8Error>)
    ensures
        r is Ok <==> valid_utf8(bytes@),
        r matches Ok(s) ==> s@ == decode_utf8(bytes@),
{
    String::from_utf8(bytes)
}

/// The bytes of `key` after the first `n`.
pub fn key_tail(key: &[u8], n: usize) -> (r: &[u8])
    ensures
        r@ == tail_from(key@, n as int),
{
    if n <= key.len() {
        slice_subrange(key, n, key.len())
    } else {
        slice_subrange(key, 0, 0)
    }
}

/// The tag that starts every metadata key.
pub fn prefix_meta() -> (r: Vec<u8>)
    ensures
        r@ == meta_prefix(),
{
    let mut v: Vec<u8> = Vec::new();
    v.push(0x6Du8);
    v.push(0x6Du8);
    v.push(0x3Au8);
    assert(v@ =~= meta_prefix());
    v
}

/// The tag that starts every data key.
pub fn prefix_data() -> (r: Vec<u8>)
    ensures
        r@ == data_tag(),
{
    let mut v: Vec<u8> = Vec::new();
    v.push(0x64u8);
    v.push(0x3Au8);
    assert(v@ =~= data_tag());
    v
}

/// The value of a record whose key says everything.
pub fn fill_empty_data() -> (r: Vec<u8>)
    ensures
        r@ == filler(),
{
    let mut v: Vec<u8> = Vec::new();
    v.push(0u8);
    assert(v@ =~= filler());
    v
}

/// The metadata key of a logical key.
pub fn encode_meta_key(key: &[u8]) -> (r: Vec<u8>)
    ensures
        r@ == meta_key(key@),
{
    let p = prefix_meta();
    join_bytes(p.as_slice(), key)
}

/// The logical key named by a metadata key, as text.
pub fn decode_meta_key(key: &[u8]) -> (r: Result<String, FromUtf8Error>)
    ensures
        r is Ok <==> valid_utf8(tail_from(key@, 3)),
        r matches Ok(s) ==> s@ == decode_utf8(tail_from(key@, 3)),
{
    string_from_utf8(slice_to_vec(key_tail(key, 3)))
}

/// The prefix shared by all data keys of the collection with this id.
pub fn encode_data_prefix(id: u64) -> (r: Vec<u8>)
    ensures
        r@ == data_prefix(id),
        r@.len() == 10,
{
    let p = prefix_data();
    let e = encode_u64(id);
    join_bytes(p.as_slice(), e.as_slice())
}

/// The exclusive upper end of the key range of the collection with this id.
pub fn encode_data_range_end(id: u64) -> (r: Vec<u8>)
    ensures
        r@ == data_range_end(id),
{
    if id < u64::MAX {
        encode_data_prefix(id + 1)
    } else {
        let mut v: Vec<u8> = Vec::new();
        v.push(0x64u8);
        v.push(0x3Bu8);
        assert(v@ =~= data_range_end(id));
        v
    }
}

/// The data key of a field of a map.
pub fn encode_data_key_map_item(id: u64, field: &[u8]) -> (r: Vec<u8>)
    ensures
        r@ == item_key(id, field@),
{
    let p = encode_data_prefix(id);
    join_bytes(p.as_slice(), field)
}

/// The field named by a map's data key, as text.
pub fn decode_data_key_map_item(key: &[u8]) -> (r: Result<String, FromUtf8Error>)
    ensures
        r is Ok <==> valid_utf8(tail_from(key@, 10)),
        r matches Ok(s) ==> s@ == decode_utf8(tail_from(key@, 10)),
{
    string_from_utf8(slice_to_vec(key_tail(key, 10)))
}

/// The data key of a member of a set.
pub fn encode_data_key_set_item(id: u64, value: &[u8]) -> (r: Vec<u8>)
    ensures
        r@ == item_key(id, value@),
{
    let p = encode_data_prefix(id);
    join_bytes(p.as_slice(), value)
}

/// The member held in a set's data key.
pub fn decode_data_key_set_item(key: &[u8]) -> (r: &[u8])
    ensures
        r@ == tail_from(key@, 10),
{
    key_tail(key, 10)
}

/// The data key of the list item at a position.
pub fn encode_data_key_list_item(id: u64, position: i64) -> (r: Vec<u8>)
    ensures
        r@ == list_item_key(id, position),
{
    let p = encode_data_prefix(id);
    let e = encode_u64(bias_position(position));
    join_bytes(p.as_slice(), e.as_slice())
}

/// The data key of the sorted-list item with this score and sequence number.
pub fn encode_data_key_sorted_list_item(id: u64, score: &[u8], sequence: u64) -> (r: Vec<u8>)
    ensures
        r@ == sorted_list_item_key(id, score@, sequence),
{
    let p = encode_data_prefix(id);
    let head = join_bytes(p.as_slice(), score);
    let e = encode_u64(sequence);
    join_bytes(head.as_slice(), e.as_slice())
}

/// The score held in a sorted-list data key.
pub fn decode_data_key_sorted_list_item(key: &[u8]) -> (r: &[u8])
    ensures
        r@ == sorted_list_score_of(key@),
{
    if key.len() >= 18 {
        slice_subrange(key, 10, key.len() - 8)
    } else {
        slice_subrange(key, 0, 0)
    }
}

/// The prefix of a sorted set's score-ordered records.
pub fn encode_data_key_sorted_set_prefix(id: u64) -> (r: Vec<u8>)
    ensures
        r@ == sorted_set_prefix(id),
{
    let mut p = encode_data_prefix(id);
    p.push(0u8);
    p
}

/// The prefix of the lookup records: the exclusive upper end of the
/// score-ordered records.
pub fn encode_data_key_sorted_set_reverse_prefix(id: u64) -> (r: Vec<u8>)
    ensures
        r@ == sorted_set_reverse_prefix(id),
{
    let mut p = encode_data_prefix(id);
    p.push(1u8);
    p
}

/// The key of a member's score-ordered record.
pub fn encode_data_key_sorted_set_item_with_score(id: u64, score: &[u8], value: &[u8]) -> (r: Vec<
    u8,
>)
    ensures
        r@ == sorted_set_forward_key(id, score@, value@),
{
    let p = encode_data_key_sorted_set_prefix(id);
    let head = join_bytes(p.as_slice(), score);
    join_bytes(head.as_slice(), value)
}

/// The key of a member's lookup record.
pub fn encode_data_key_sorted_set_item_without_score(id: u64, value: &[u8]) -> (r: Vec<u8>)
    ensures
        r@ == sorted_set_reverse_key(id, value@),
{
    let p = encode_data_key_sorted_set_reverse_prefix(id);
    join_bytes(p.as_slice(), value)
}

/// The score and the member held in a sorted set's score-ordered key.
pub fn decode_data_key_sorted_set_item_with_score(key: &[u8], score_len: u8) -> (r: (
    Vec<u8>,
    Vec<u8>,
))
    ensures
        (r.0@, r.1@) == sorted_set_pair_of(key@, score_len),
{
    let split: usize = 11 + score_len as usize;
    if key.len() >= split {
        (
            slice_to_vec(slice_subrange(key, 11, split)),
            slice_to_vec(slice_subrange(key, split, key.len())),
        )
    } else {
        (slice_to_vec(key_tail(key, 11)), Vec::new())
    }
}

} // verus!
