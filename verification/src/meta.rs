//! The metadata record of a logical key.
//!
//! The record holds the id under which the items are filed, the type of the
//! collection, the number of items, and a few bytes of state whose meaning
//! depends on the type. Its wire form is the id in eight bytes, one type byte,
//! the count in eight bytes, and the state.

use vstd::prelude::*;
use vstd::slice::{slice_subrange, slice_to_vec};
use crate::bigendian::{
    be_bytes, be_value, bits_to_signed, decode_u32, decode_u64, encode_u32, encode_u64,
    lemma_be_bytes_of_value, lemma_be_len, lemma_be_value_of_bytes, lemma_pow256_values,
    lemma_signed_round_trip, signed_of, signed_to_bits, twos_complement,
};
use crate::codec::join_bytes;

verus! {

/// The five kinds of collection.
#[derive(Clone, Copy, Debug, PartialEq, Eq, Structural)]
pub enum KeyType {
    MapKey,
    SetKey,
    ListKey,
    SortedListKey,
    SortedSetKey,
}

/// The byte that stands for a type in a stored record.
pub open spec fn type_byte(t: KeyType) -> u8 {
    match t {
        KeyType::MapKey => 1u8,
        KeyType::SetKey => 2u8,
        KeyType::ListKey => 3u8,
        KeyType::SortedListKey => 4u8,
        KeyType::SortedSetKey => 5u8,
    }
}

/// The type that a stored byte stands for, if any.
pub open spec fn type_of_byte(b: u8) -> Option<KeyType> {
    if b == 1 {
        Some(KeyType::MapKey)
    } else if b == 2 {
        Some(KeyType::SetKey)
    } else if b == 3 {
        Some(KeyType::ListKey)
    } else if b == 4 {
        Some(KeyType::SortedListKey)
    } else if b == 5 {
        Some(KeyType::SortedSetKey)
    } else {
        None
    }
}

/// The number of state bytes that a record of this type carries.
pub open spec fn extra_len(t: KeyType) -> nat {
    match t {
        KeyType::MapKey => 0,
        KeyType::SetKey => 0,
        KeyType::ListKey => 16,
        KeyType::SortedListKey => 16,
        KeyType::SortedSetKey => 5,
    }
}

/// A list's state: the positions just outside its two ends.
pub open spec fn list_extra(left: i64, right: i64) -> Seq<u8> {
    be_bytes(twos_complement(left), 8) + be_bytes(twos_complement(right), 8)
}

/// A sorted list's state: the next sequence number and the two counts of
/// items popped since the last compaction of each end.
pub open spec fn sorted_list_extra(
    sequence: u64,
    left_deleted: u32,
    right_deleted: u32,
) -> Seq<u8> {
    be_bytes(sequence as nat, 8) + be_bytes(left_deleted as nat, 4) + be_bytes(
        right_deleted as nat,
        4,
    )
}

/// A sorted set's state: the count of members deleted since the last
/// compaction, and the length that a score must have, zero while none is
/// stored.
pub open spec fn sorted_set_extra(deleted_count: u32, score_len: u8) -> Seq<u8> {
    be_bytes(deleted_count as nat, 4).push(score_len)
}

/// The state of a collection that holds nothing yet.
pub open spec fn default_extra(t: KeyType) -> Seq<u8> {
    match t {
        KeyType::MapKey => Seq::empty(),
        KeyType::SetKey => Seq::empty(),
        KeyType::ListKey => list_extra(0, 1),
        KeyType::SortedListKey => sorted_list_extra(0, 0, 0),
        KeyType::SortedSetKey => sorted_set_extra(0, 0),
    }
}

/// The mathematical content of a metadata record.
pub struct MetaView {
    pub id: u64,
    pub key_type: KeyType,
    pub count: u64,
    pub extra: Seq<u8>,
}

impl MetaView {
    /// The state bytes have the length that the type calls for.
    pub open spec fn wf(self) -> bool {
        self.extra.len() == extra_len(self.key_type)
    }

    /// The position just before the first item of a list.
    pub open spec fn list_left(self) -> i64 {
        signed_of(be_value(self.extra.subrange(0, 8)))
    }

    /// The position just after the last item of a list.
    pub open spec fn list_right(self) -> i64 {
        signed_of(be_value(self.extra.subrange(8, 16)))
    }

    /// The sequence number that the next item of a sorted list gets.
    pub open spec fn sequence(self) -> u64 {
        be_value(self.extra.subrange(0, 8)) as u64
    }

    /// The items popped from a sorted list's left end since its last
    /// compaction.
    pub open spec fn left_deleted(self) -> u32 {
        be_value(self.extra.subrange(8, 12)) as u32
    }

    /// The items popped from a sorted list's right end since its last
    /// compaction.
    pub open spec fn right_deleted(self) -> u32 {
        be_value(self.extra.subrange(12, 16)) as u32
    }

    /// The members deleted from a sorted set since its last compaction.
    pub open spec fn deleted_count(self) -> u32 {
        be_value(self.extra.subrange(0, 4)) as u32
    }

    /// The length that a sorted set asks of a score; zero while no length
    /// is stored.
    pub open spec fn score_len(self) -> u8 {
        self.extra[4]
    }

    /// The same record with another count.
    pub open spec fn with_count(self, count: u64) -> MetaView {
        MetaView { count, ..self }
    }

    /// The same record with other state bytes.
    pub open spec fn with_extra(self, extra: Seq<u8>) -> MetaView {
        MetaView { extra, ..self }
    }
}

/// The record of a collection that was just created.
pub open spec fn fresh_meta(id: u64, t: KeyType) -> MetaView {
    MetaView { id, key_type: t, count: 0, extra: default_extra(t) }
}

/// The wire form of a record.
pub open spec fn encode_meta(m: MetaView) -> Seq<u8> {
    be_bytes(m.id as nat, 8).push(type_byte(m.key_type)) + be_bytes(m.count as nat, 8) + m.extra
}

/// The record that a wire form denotes; none when the bytes are too short,
/// name no type, or carry state of the wrong length.
pub open spec fn parse_meta(b: Seq<u8>) -> Option<MetaView> {
    if b.len() < 17 {
        None
    } else {
        match type_of_byte(b[8]) {
            None => None,
            Some(t) => if b.len() == 17 + extra_len(t) {
                Some(
                    MetaView {
                        id: be_value(b.subrange(0, 8)) as u64,
                        key_type: t,
                        count: be_value(b.subrange(9, 17)) as u64,
                        extra: b.subrange(17, b.len() as int),
                    },
                )
            } else {
                None
            },
        }
    }
}

/// Reading back what was written gives the record that was written.
pub proof fn lemma_parse_encode(m: MetaView)
    requires
        m.wf(),
    ensures
        parse_meta(encode_meta(m)) == Some(m),
        encode_meta(m).len() == 17 + m.extra.len(),
{
    let b = encode_meta(m);
    lemma_be_len(m.id as nat, 8);
    lemma_be_len(m.count as nat, 8);
    lemma_pow256_values();
    lemma_be_value_of_bytes(m.id as nat, 8);
    lemma_be_value_of_bytes(m.count as nat, 8);
    assert(b.subrange(0, 8) =~= be_bytes(m.id as nat, 8));
    assert(b.subrange(9, 17) =~= be_bytes(m.count as nat, 8));
    assert(b.subrange(17, b.len() as int) =~= m.extra);
    assert(b[8] == type_byte(m.key_type));
}

/// Writing what was read gives the bytes that were read.
pub proof fn lemma_encode_parse(b: Seq<u8>)
    requires
        parse_meta(b) is Some,
    ensures
        encode_meta(parse_meta(b).unwrap()) == b,
        parse_meta(b).unwrap().wf(),
{
    let m = parse_meta(b).unwrap();
    lemma_be_bytes_of_value(b.subrange(0, 8));
    lemma_be_bytes_of_value(b.subrange(9, 17));
    lemma_pow256_values();
    assert(encode_meta(m) =~= b);
}

/// A list's state reads back as the two ends that were written.
pub proof fn lemma_list_extra(left: i64, right: i64)
    ensures
        list_extra(left, right).len() == 16,
        signed_of(be_value(list_extra(left, right).subrange(0, 8))) == left,
        signed_of(be_value(list_extra(left, right).subrange(8, 16))) == right,
{
    let e = list_extra(left, right);
    lemma_be_len(twos_complement(left), 8);
    lemma_be_len(twos_complement(right), 8);
    lemma_signed_round_trip(left);
    lemma_signed_round_trip(right);
    lemma_be_value_of_bytes(twos_complement(left), 8);
    lemma_be_value_of_bytes(twos_complement(right), 8);
    assert(e.subrange(0, 8) =~= be_bytes(twos_complement(left), 8));
    assert(e.subrange(8, 16) =~= be_bytes(twos_complement(right), 8));
}

/// A sorted list's state reads back as the three numbers that were written.
pub proof fn lemma_sorted_list_extra(sequence: u64, left_deleted: u32, right_deleted: u32)
    ensures
        sorted_list_extra(sequence, left_deleted, right_deleted).len() == 16,
        be_value(sorted_list_extra(sequence, left_deleted, right_deleted).subrange(0, 8))
            == sequence,
        be_value(sorted_list_extra(sequence, left_deleted, right_deleted).subrange(8, 12))
            == left_deleted,
        be_value(sorted_list_extra(sequence, left_deleted, right_deleted).subrange(12, 16))
            == right_deleted,
{
    let e = sorted_list_extra(sequence, left_deleted, right_deleted);
    lemma_be_len(sequence as nat, 8);
    lemma_be_len(left_deleted as nat, 4);
    lemma_be_len(right_deleted as nat, 4);
    lemma_pow256_values();
    lemma_be_value_of_bytes(sequence as nat, 8);
    lemma_be_value_of_bytes(left_deleted as nat, 4);
    lemma_be_value_of_bytes(right_deleted as nat, 4);
    assert(e.subrange(0, 8) =~= be_bytes(sequence as nat, 8));
    assert(e.subrange(8, 12) =~= be_bytes(left_deleted as nat, 4));
    assert(e.subrange(12, 16) =~= be_bytes(right_deleted as nat, 4));
}

/// A sorted set's state reads back as the two numbers that were written.
pub proof fn lemma_sorted_set_extra(deleted_count: u32, score_len: u8)
    ensures
        sorted_set_extra(deleted_count, score_len).len() == 5,
        be_value(sorted_set_extra(deleted_count, score_len).subrange(0, 4)) == deleted_count,
        sorted_set_extra(deleted_count, score_len)[4] == score_len,
{
    let e = sorted_set_extra(deleted_count, score_len);
    lemma_be_len(deleted_count as nat, 4);
    lemma_pow256_values();
    lemma_be_value_of_bytes(deleted_count as nat, 4);
    assert(e.subrange(0, 4) =~= be_bytes(deleted_count as nat, 4));
}

/// The state of a fresh collection has the length that its type calls for.
pub proof fn lemma_fresh_meta_wf(id: u64, t: KeyType)
    ensures
        fresh_meta(id, t).wf(),
{
    lemma_list_extra(0, 1);
    lemma_sorted_list_extra(0, 0, 0);
    lemma_sorted_set_extra(0, 0);
}

impl KeyType {
    /// The byte that stands for the type in a stored record.
    pub fn to_u8(self) -> (r: u8)
        ensures
            r == type_byte(self),
    {
        match self {
            KeyType::MapKey => 1,
            KeyType::SetKey => 2,
            KeyType::ListKey => 3,
            KeyType::SortedListKey => 4,
            KeyType::SortedSetKey => 5,
        }
    }

    /// The type that a stored byte stands for.
    pub fn from_u8(b: u8) -> (r: Option<KeyType>)
        ensures
            r == type_of_byte(b),
    {
        if b == 1 {
            Some(KeyType::MapKey)
        } else if b == 2 {
            Some(KeyType::SetKey)
        } else if b == 3 {
            Some(KeyType::ListKey)
        } else if b == 4 {
            Some(KeyType::SortedListKey)
        } else if b == 5 {
            Some(KeyType::SortedSetKey)
        } else {
            None
        }
    }

    /// The number of state bytes that a record of this type carries.
    pub fn extra_size(self) -> (r: usize)
        ensures
            r == extra_len(self),
    {
        match self {
            KeyType::MapKey => 0,
            KeyType::SetKey => 0,
            KeyType::ListKey => 16,
            KeyType::SortedListKey => 16,
            KeyType::SortedSetKey => 5,
        }
    }
}

/// The metadata record of one logical key.
#[derive(Debug)]
pub struct KeyMeta {
    pub id: u64,
    pub key_type: KeyType,
    pub count: u64,
    pub extra: Vec<u8>,
}

impl View for KeyMeta {
    type V = MetaView;

    open spec fn view(&self) -> MetaView {
        MetaView { id: self.id, key_type: self.key_type, count: self.count, extra: self.extra@ }
    }
}

impl Clone for KeyMeta {
    fn clone(&self) -> (r: Self)
        ensures
            r@ == self@,
    {
        KeyMeta {
            id: self.id,
            key_type: self.key_type,
            count: self.count,
            extra: slice_to_vec(self.extra.as_slice()),
        }
    }
}

impl KeyMeta {
    /// The record of a new, empty collection.
    pub fn new(id: u64, key_type: KeyType) -> (r: KeyMeta)
        ensures
            r@ == fresh_meta(id, key_type),
            r@.wf(),
    {
        let mut m = KeyMeta { id, key_type, count: 0, extra: Vec::new() };
        match key_type {
            KeyType::MapKey => {},
            KeyType::SetKey => {},
            KeyType::ListKey => {
                m.encode_list_extra(0, 1);
            },
            KeyType::SortedListKey => {
                m.encode_sorted_list_extra(0, 0, 0);
            },
            KeyType::SortedSetKey => {
                m.encode_sorted_set_extra(0, 0);
            },
        }
        proof {
            lemma_fresh_meta_wf(id, key_type);
            assert(m.extra@ =~= default_extra(key_type));
        }
        m
    }

    /// The wire form of the record.
    pub fn get_bytes(&self) -> (r: Vec<u8>)
        ensures
            r@ == encode_meta(self@),
    {
        let mut head = encode_u64(self.id);
        head.push(self.key_type.to_u8());
        let count = encode_u64(self.count);
        let fixed = join_bytes(head.as_slice(), count.as_slice());
        join_bytes(fixed.as_slice(), self.extra.as_slice())
    }

    /// Reads a record from its wire form.
    pub fn from_bytes(bytes: &[u8]) -> (r: Option<KeyMeta>)
        ensures
            r is Some <==> parse_meta(bytes@) is Some,
            r matches Some(m) ==> parse_meta(bytes@) == Some(m@) && m@.wf(),
    {
        if bytes.len() < 17 {
            return None;
        }
        match KeyType::from_u8(bytes[8]) {
            None => None,
            Some(t) => {
                if bytes.len() - 17 != t.extra_size() {
                    return None;
                }
                let id = decode_u64(bytes, 0);
                let count = decode_u64(bytes, 9);
                let extra = slice_to_vec(slice_subrange(bytes, 17, bytes.len()));
                Some(KeyMeta { id, key_type: t, count, extra })
            },
        }
    }

    /// The positions just outside the two ends of a list.
    pub fn decode_list_extra(&self) -> (r: (i64, i64))
        requires
            self.extra@.len() == 16,
        ensures
            r == (self@.list_left(), self@.list_right()),
    {
        let left = bits_to_signed(decode_u64(self.extra.as_slice(), 0));
        let right = bits_to_signed(decode_u64(self.extra.as_slice(), 8));
        (left, right)
    }

    /// Sets the positions just outside the two ends of a list.
    pub fn encode_list_extra(&mut self, left: i64, right: i64)
        ensures
            final(self)@ == old(self)@.with_extra(list_extra(left, right)),
    {
        let l = encode_u64(signed_to_bits(left));
        let r = encode_u64(signed_to_bits(right));
        self.extra = join_bytes(l.as_slice(), r.as_slice());
    }

    /// The next sequence number and the two counts of popped items.
    pub fn decode_sorted_list_extra(&self) -> (r: (u64, u32, u32))
        requires
            self.extra@.len() == 16,
        ensures
            r == (self@.sequence(), self@.left_deleted(), self@.right_deleted()),
    {
        let sequence = decode_u64(self.extra.as_slice(), 0);
        let left_deleted = decode_u32(self.extra.as_slice(), 8);
        let right_deleted = decode_u32(self.extra.as_slice(), 12);
        (sequence, left_deleted, right_deleted)
    }

    /// Sets the next sequence number and the two counts of popped items.
    pub fn encode_sorted_list_extra(&mut self, sequence: u64, left_deleted: u32, right_deleted: u32)
        ensures
            final(self)@ == old(self)@.with_extra(
                sorted_list_extra(sequence, left_deleted, right_deleted),
            ),
    {
        let s = encode_u64(sequence);
        let l = encode_u32(left_deleted);
        let r = encode_u32(right_deleted);
        let head = join_bytes(s.as_slice(), l.as_slice());
        self.extra = join_bytes(head.as_slice(), r.as_slice());
    }

    /// The count of deleted members and the length of the scores.
    pub fn decode_sorted_set_extra(&self) -> (r: (u32, u8))
        requires
            self.extra@.len() == 5,
        ensures
            r == (self@.deleted_count(), self@.score_len()),
    {
        let deleted_count = decode_u32(self.extra.as_slice(), 0);
        (deleted_count, self.extra[4])
    }

    /// Sets the count of deleted members and the length of the scores.
    pub fn encode_sorted_set_extra(&mut self, deleted_count: u32, score_len: u8)
        ensures
            final(self)@ == old(self)@.with_extra(sorted_set_extra(deleted_count, score_len)),
    {
        let mut e = encode_u32(deleted_count);
        e.push(score_len);
        self.extra = e;
    }
}

} // verus!
