//! A store kept in memory.
//!
//! The records lie in two vectors, the keys in strictly ascending bytewise
//! order and each value at the index of its key. Every operation walks the
//! keys from the front; the store is meant as the reference for what
//! `KvStore` asks, not for speed.

use vstd::prelude::*;
use vstd::slice::slice_to_vec;
use crate::lex::{
    compare_score_bytes, lemma_lex_asymmetric, lemma_lex_irreflexive, lemma_lex_total,
    lemma_lex_transitive, lex_le, lex_lt,
};
use crate::store::{
    is_first_after, is_first_at_or_after, is_last_before, Contents, KvStore, Record, StoreError,
};

verus! {

/// Each key sorts before all that follow it.
pub open spec fn strictly_sorted(ks: Seq<Seq<u8>>) -> bool {
    forall|i: int, j: int| 0 <= i < j < ks.len() ==> lex_lt(#[trigger] ks[i], #[trigger] ks[j])
}

/// The map that sends each key of `ks` to the value at its index in `vs`.
pub open spec fn map_of(ks: Seq<Seq<u8>>, vs: Seq<Seq<u8>>) -> Contents {
    Map::new(|k: Seq<u8>| ks.contains(k), |k: Seq<u8>| vs[ks.index_of(k)])
}

/// `at` is where `key` belongs among `ks`: after every smaller key and not
/// after any other.
pub open spec fn is_slot(ks: Seq<Seq<u8>>, key: Seq<u8>, at: int) -> bool {
    &&& 0 <= at <= ks.len()
    &&& forall|j: int| 0 <= j < at ==> lex_lt(#[trigger] ks[j], key)
    &&& at < ks.len() ==> !lex_lt(ks[at], key)
}

/// Among sorted keys, a key is found at its own index and nowhere else.
proof fn lemma_index_unique(ks: Seq<Seq<u8>>, i: int)
    requires
        strictly_sorted(ks),
        0 <= i < ks.len(),
    ensures
        ks.contains(ks[i]),
        ks.index_of(ks[i]) == i,
{
    let j = ks.index_of(ks[i]);
    lemma_lex_irreflexive(ks[i]);
    if j < i {
        assert(lex_lt(ks[j], ks[i]));
    } else if i < j {
        assert(lex_lt(ks[i], ks[j]));
    }
}

/// The map sends the key at an index to the value at that index.
proof fn lemma_map_of_at(ks: Seq<Seq<u8>>, vs: Seq<Seq<u8>>, i: int)
    requires
        strictly_sorted(ks),
        ks.len() == vs.len(),
        0 <= i < ks.len(),
    ensures
        map_of(ks, vs).contains_key(ks[i]),
        map_of(ks, vs)[ks[i]] == vs[i],
{
    lemma_index_unique(ks, i);
}

/// The map has finitely many keys.
proof fn lemma_map_of_finite(ks: Seq<Seq<u8>>, vs: Seq<Seq<u8>>)
    ensures
        map_of(ks, vs).dom().finite(),
{
    vstd::seq_lib::seq_to_set_is_finite(ks);
    assert(map_of(ks, vs).dom() =~= ks.to_set());
}

/// The keys from the slot of `key` on are not before `key`, and those past
/// the slot are after it.
proof fn lemma_slot_order(ks: Seq<Seq<u8>>, key: Seq<u8>, at: int, j: int)
    requires
        strictly_sorted(ks),
        is_slot(ks, key, at),
        at <= j < ks.len(),
    ensures
        lex_le(key, ks[j]),
        ks[at] != key ==> lex_lt(key, ks[j]),
        at < j ==> lex_lt(key, ks[j]),
{
    lemma_lex_total(ks[at], key);
    if at < j {
        assert(lex_lt(ks[at], ks[j]));
        if ks[at] != key {
            lemma_lex_transitive(key, ks[at], ks[j]);
        }
    }
}

/// Putting a new key in at its slot keeps the keys sorted and adds the
/// record to the map.
proof fn lemma_insert(ks: Seq<Seq<u8>>, vs: Seq<Seq<u8>>, at: int, key: Seq<u8>, value: Seq<u8>)
    requires
        strictly_sorted(ks),
        ks.len() == vs.len(),
        is_slot(ks, key, at),
        at == ks.len() || ks[at] != key,
    ensures
        strictly_sorted(ks.insert(at, key)),
        map_of(ks.insert(at, key), vs.insert(at, value)) == map_of(ks, vs).insert(key, value),
{
    let ks2 = ks.insert(at, key);
    let vs2 = vs.insert(at, value);
    assert forall|i: int, j: int| 0 <= i < j < ks2.len() implies lex_lt(
        #[trigger] ks2[i],
        #[trigger] ks2[j],
    ) by {
        if j < at {
            assert(lex_lt(ks[i], ks[j]));
        } else if j == at {
            assert(lex_lt(ks[i], key));
        } else if i == at {
            lemma_slot_order(ks, key, at, j - 1);
        } else if i < at {
            assert(lex_lt(ks[i], ks[j - 1]));
        } else {
            assert(lex_lt(ks[i - 1], ks[j - 1]));
        }
    }
    let m = map_of(ks, vs).insert(key, value);
    let m2 = map_of(ks2, vs2);
    assert forall|k: Seq<u8>| #[trigger] m.contains_key(k) implies m2.contains_key(k) && m2[k]
        == m[k] by {
        if k == key {
            assert(ks2[at] == key);
            lemma_map_of_at(ks2, vs2, at);
        } else {
            let i = ks.index_of(k);
            lemma_map_of_at(ks, vs, i);
            if i < at {
                assert(ks2[i] == k);
                lemma_map_of_at(ks2, vs2, i);
            } else {
                assert(ks2[i + 1] == k);
                lemma_map_of_at(ks2, vs2, i + 1);
            }
        }
    }
    assert forall|k: Seq<u8>| #[trigger] m2.contains_key(k) implies m.contains_key(k) by {
        let i = ks2.index_of(k);
        if i < at {
            assert(ks[i] == k);
        } else if i > at {
            assert(ks[i - 1] == k);
        }
    }
    assert(m2 =~= m);
}

/// Replacing the value at an index replaces it in the map.
proof fn lemma_update(ks: Seq<Seq<u8>>, vs: Seq<Seq<u8>>, at: int, value: Seq<u8>)
    requires
        strictly_sorted(ks),
        ks.len() == vs.len(),
        0 <= at < ks.len(),
    ensures
        map_of(ks, vs.update(at, value)) == map_of(ks, vs).insert(ks[at], value),
{
    let vs2 = vs.update(at, value);
    let m = map_of(ks, vs).insert(ks[at], value);
    let m2 = map_of(ks, vs2);
    assert forall|k: Seq<u8>| #[trigger] m.contains_key(k) implies m2.contains_key(k) && m2[k]
        == m[k] by {
        if k == ks[at] {
            lemma_map_of_at(ks, vs2, at);
        } else {
            let i = ks.index_of(k);
            lemma_map_of_at(ks, vs, i);
            lemma_map_of_at(ks, vs2, i);
        }
    }
    assert(m2 =~= m);
}

/// Taking the record at an index out keeps the keys sorted and removes
/// the record from the map.
proof fn lemma_remove(ks: Seq<Seq<u8>>, vs: Seq<Seq<u8>>, at: int)
    requires
        strictly_sorted(ks),
        ks.len() == vs.len(),
        0 <= at < ks.len(),
    ensures
        strictly_sorted(ks.remove(at)),
        map_of(ks.remove(at), vs.remove(at)) == map_of(ks, vs).remove(ks[at]),
{
    let ks2 = ks.remove(at);
    let vs2 = vs.remove(at);
    assert forall|i: int, j: int| 0 <= i < j < ks2.len() implies lex_lt(
        #[trigger] ks2[i],
        #[trigger] ks2[j],
    ) by {
        let a = if i < at { i } else { i + 1 };
        let b = if j < at { j } else { j + 1 };
        assert(lex_lt(ks[a], ks[b]));
    }
    let m = map_of(ks, vs).remove(ks[at]);
    let m2 = map_of(ks2, vs2);
    assert forall|k: Seq<u8>| #[trigger] m.contains_key(k) implies m2.contains_key(k) && m2[k]
        == m[k] by {
        let i = ks.index_of(k);
        lemma_map_of_at(ks, vs, i);
        if i < at {
            assert(ks2[i] == k);
            lemma_map_of_at(ks2, vs2, i);
        } else {
            assert(ks2[i - 1] == k);
            lemma_map_of_at(ks2, vs2, i - 1);
        }
    }
    assert forall|k: Seq<u8>| #[trigger] m2.contains_key(k) implies m.contains_key(k) by {
        let i = ks2.index_of(k);
        let a = if i < at { i } else { i + 1 };
        assert(ks[a] == k);
        lemma_index_unique(ks, a);
        lemma_index_unique(ks, at);
    }
    assert(m2 =~= m);
}

/// A key that is not at its slot is not in the map.
proof fn lemma_absent(ks: Seq<Seq<u8>>, vs: Seq<Seq<u8>>, key: Seq<u8>, at: int)
    requires
        strictly_sorted(ks),
        ks.len() == vs.len(),
        is_slot(ks, key, at),
        at == ks.len() || ks[at] != key,
    ensures
        !map_of(ks, vs).contains_key(key),
{
    if ks.contains(key) {
        let i = ks.index_of(key);
        lemma_lex_irreflexive(key);
        if i >= at {
            lemma_slot_order(ks, key, at, i);
        }
    }
}

/// The record at the slot of a key is the first at or after the key, and
/// the record before the slot is the last before it.
proof fn lemma_from_slot(ks: Seq<Seq<u8>>, vs: Seq<Seq<u8>>, from: Seq<u8>, at: int)
    requires
        strictly_sorted(ks),
        ks.len() == vs.len(),
        is_slot(ks, from, at),
    ensures
        is_first_at_or_after(
            map_of(ks, vs),
            from,
            if at < ks.len() {
                Some((ks[at], vs[at]))
            } else {
                None
            },
        ),
        is_last_before(
            map_of(ks, vs),
            from,
            if at > 0 {
                Some((ks[at - 1], vs[at - 1]))
            } else {
                None
            },
        ),
{
    let m = map_of(ks, vs);
    assert forall|x: Seq<u8>| #[trigger] m.contains_key(x) implies (lex_le(from, x) ==> at
        < ks.len() && lex_le(ks[at], x)) && (lex_lt(x, from) ==> at > 0 && lex_le(x, ks[at - 1])) by {
        let i = ks.index_of(x);
        lemma_lex_irreflexive(x);
        if i < at {
            assert(lex_lt(ks[i], from));
            lemma_lex_asymmetric(x, from);
            if i < at - 1 {
                assert(lex_lt(ks[i], ks[at - 1]));
            }
        } else {
            lemma_slot_order(ks, from, at, i);
            if lex_lt(x, from) {
                lemma_lex_asymmetric(x, from);
            }
            if at < i {
                assert(lex_lt(ks[at], ks[i]));
            }
        }
    }
    if at < ks.len() {
        lemma_map_of_at(ks, vs, at);
        lemma_slot_order(ks, from, at, at);
    }
    if at > 0 {
        lemma_map_of_at(ks, vs, at - 1);
        assert(lex_lt(ks[at - 1], from));
    }
}

/// The first record after a key is the one at its slot, or the next one
/// when the key itself is there.
proof fn lemma_after_slot(ks: Seq<Seq<u8>>, vs: Seq<Seq<u8>>, from: Seq<u8>, at: int)
    requires
        strictly_sorted(ks),
        ks.len() == vs.len(),
        is_slot(ks, from, at),
    ensures
        ({
            let next = if at < ks.len() && ks[at] == from {
                at + 1
            } else {
                at
            };
            is_first_after(
                map_of(ks, vs),
                from,
                if next < ks.len() {
                    Some((ks[next], vs[next]))
                } else {
                    None
                },
            )
        }),
{
    let m = map_of(ks, vs);
    let next = if at < ks.len() && ks[at] == from {
        at + 1
    } else {
        at
    };
    assert forall|x: Seq<u8>| #[trigger] m.contains_key(x) && lex_lt(from, x) implies next
        < ks.len() && lex_le(ks[next], x) by {
        let i = ks.index_of(x);
        lemma_lex_irreflexive(x);
        if i < at {
            assert(lex_lt(ks[i], from));
            lemma_lex_asymmetric(x, from);
        } else if i > next {
            assert(lex_lt(ks[next], ks[i]));
        }
    }
    if next < ks.len() {
        lemma_map_of_at(ks, vs, next);
        if next == at {
            lemma_slot_order(ks, from, at, at);
        } else {
            assert(lex_lt(ks[at], ks[next]));
        }
    }
}

/// An ordered store held in memory. It never fails.
pub struct MemStore {
    entries: Vec<(Vec<u8>, Vec<u8>)>,
    compacted: Vec<(Vec<u8>, Vec<u8>)>,
}

impl MemStore {
    /// The keys, in order.
    pub closed spec fn key_seq(&self) -> Seq<Seq<u8>> {
        Seq::new(self.entries@.len(), |i: int| self.entries@[i].0@)
    }

    /// The values, each at the index of its key.
    pub closed spec fn value_seq(&self) -> Seq<Seq<u8>> {
        Seq::new(self.entries@.len(), |i: int| self.entries@[i].1@)
    }

    /// The ranges that were asked to be compacted, in order.
    pub closed spec fn compacted_seq(&self) -> Seq<Record> {
        Seq::new(self.compacted@.len(), |i: int| (self.compacted@[i].0@, self.compacted@[i].1@))
    }

    /// The keys are in strictly ascending order.
    #[verifier::type_invariant]
    closed spec fn sorted(&self) -> bool {
        strictly_sorted(self.key_seq())
    }

    /// An empty store.
    pub fn new() -> (r: MemStore)
        ensures
            r.contents() == Map::<Seq<u8>, Seq<u8>>::empty(),
            r.compactions() == Seq::<Record>::empty(),
    {
        let r = MemStore { entries: Vec::new(), compacted: Vec::new() };
        assert(r.contents() =~= Map::<Seq<u8>, Seq<u8>>::empty());
        assert(r.compactions() =~= Seq::<Record>::empty());
        r
    }

    /// The number of records.
    pub fn len(&self) -> (r: usize)
        ensures
            r == self.contents().dom().len(),
            self.contents().dom().finite(),
    {
        proof {
            use_type_invariant(self);
            let ks = self.key_seq();
            assert(ks.no_duplicates()) by {
                assert forall|i: int, j: int|
                    0 <= i < ks.len() && 0 <= j < ks.len() && i != j implies ks[i] != ks[j] by {
                    lemma_lex_irreflexive(ks[i]);
                    if i < j {
                        assert(lex_lt(ks[i], ks[j]));
                    } else {
                        assert(lex_lt(ks[j], ks[i]));
                    }
                }
            }
            ks.unique_seq_to_set();
            assert(self.contents().dom() =~= ks.to_set());
            vstd::seq_lib::seq_to_set_is_finite(ks);
        }
        self.entries.len()
    }

    /// The number of compactions that were asked for.
    pub fn compaction_count(&self) -> (r: usize)
        ensures
            r == self.compactions().len(),
    {
        self.compacted.len()
    }

    /// The range of the compaction with this index, oldest first.
    pub fn compaction(&self, index: usize) -> (r: (Vec<u8>, Vec<u8>))
        requires
            index < self.compactions().len(),
        ensures
            (r.0@, r.1@) == self.compactions()[index as int],
    {
        (
            slice_to_vec(self.compacted[index].0.as_slice()),
            slice_to_vec(self.compacted[index].1.as_slice()),
        )
    }

    /// The index at which `key` is or would be.
    fn locate(&self, key: &[u8]) -> (at: usize)
        ensures
            is_slot(self.key_seq(), key@, at as int),
            at <= self.entries@.len(),
    {
        let mut i: usize = 0;
        while i < self.entries.len()
            invariant
                i <= self.entries@.len(),
                forall|j: int| 0 <= j < i ==> lex_lt(#[trigger] self.key_seq()[j], key@),
            decreases self.entries@.len() - i,
        {
            assert(self.key_seq()[i as int] == self.entries@[i as int].0@);
            if compare_score_bytes(self.entries[i].0.as_slice(), key) >= 0 {
                return i;
            }
            i += 1;
        }
        i
    }

    /// Whether `key` is the key at the index.
    fn holds_at(&self, at: usize, key: &[u8]) -> (r: bool)
        requires
            at <= self.entries@.len(),
        ensures
            r == (at < self.entries@.len() && self.key_seq()[at as int] == key@),
    {
        at < self.entries.len() && compare_score_bytes(self.entries[at].0.as_slice(), key) == 0
    }

    /// A copy of the record at the index.
    fn record_at(&self, at: usize) -> (r: (Vec<u8>, Vec<u8>))
        requires
            at < self.entries@.len(),
        ensures
            r.0@ == self.key_seq()[at as int],
            r.1@ == self.value_seq()[at as int],
    {
        (slice_to_vec(self.entries[at].0.as_slice()), slice_to_vec(self.entries[at].1.as_slice()))
    }
}

impl KvStore for MemStore {
    closed spec fn contents(&self) -> Contents {
        map_of(self.key_seq(), self.value_seq())
    }

    closed spec fn compactions(&self) -> Seq<Record> {
        self.compacted_seq()
    }

    open spec fn reliable(&self) -> bool {
        true
    }

    fn get(&self, key: &[u8]) -> (r: Result<Option<Vec<u8>>, StoreError>) {
        proof {
            use_type_invariant(self);
        }
        let at = self.locate(key);
        if self.holds_at(at, key) {
            proof {
                lemma_map_of_at(self.key_seq(), self.value_seq(), at as int);
            }
            Ok(Some(slice_to_vec(self.entries[at].1.as_slice())))
        } else {
            proof {
                lemma_absent(self.key_seq(), self.value_seq(), key@, at as int);
            }
            Ok(None)
        }
    }

    fn put(&mut self, key: &[u8], value: &[u8]) -> (r: Result<(), StoreError>) {
        proof {
            use_type_invariant(&*self);
        }
        let at = self.locate(key);
        let ghost ks = self.key_seq();
        let ghost vs = self.value_seq();
        if self.holds_at(at, key) {
            proof {
                lemma_update(ks, vs, at as int, value@);
            }
            let mut entries: Vec<(Vec<u8>, Vec<u8>)> = Vec::new();
            core::mem::swap(&mut self.entries, &mut entries);
            entries.set(at, (slice_to_vec(key), slice_to_vec(value)));
            assert(Seq::new(entries@.len(), |i: int| entries@[i].0@) =~= ks);
            core::mem::swap(&mut self.entries, &mut entries);
            assert(self.key_seq() =~= ks);
            assert(self.value_seq() =~= vs.update(at as int, value@));
        } else {
            proof {
                lemma_insert(ks, vs, at as int, key@, value@);
            }
            let mut entries: Vec<(Vec<u8>, Vec<u8>)> = Vec::new();
            core::mem::swap(&mut self.entries, &mut entries);
            entries.insert(at, (slice_to_vec(key), slice_to_vec(value)));
            assert(Seq::new(entries@.len(), |i: int| entries@[i].0@) =~= ks.insert(
                at as int,
                key@,
            ));
            core::mem::swap(&mut self.entries, &mut entries);
            assert(self.key_seq() =~= ks.insert(at as int, key@));
            assert(self.value_seq() =~= vs.insert(at as int, value@));
        }
        assert(self.compacted_seq() =~= old(self).compacted_seq());
        Ok(())
    }

    fn delete(&mut self, key: &[u8]) -> (r: Result<(), StoreError>) {
        proof {
            use_type_invariant(&*self);
        }
        let at = self.locate(key);
        let ghost ks = self.key_seq();
        let ghost vs = self.value_seq();
        if self.holds_at(at, key) {
            proof {
                lemma_remove(ks, vs, at as int);
            }
            let mut entries: Vec<(Vec<u8>, Vec<u8>)> = Vec::new();
            core::mem::swap(&mut self.entries, &mut entries);
            entries.remove(at);
            assert(Seq::new(entries@.len(), |i: int| entries@[i].0@) =~= ks.remove(at as int));
            core::mem::swap(&mut self.entries, &mut entries);
            assert(self.key_seq() =~= ks.remove(at as int));
            assert(self.value_seq() =~= vs.remove(at as int));
        } else {
            proof {
                lemma_absent(ks, vs, key@, at as int);
                assert(self.contents() =~= old(self).contents().remove(key@));
            }
        }
        assert(self.compacted_seq() =~= old(self).compacted_seq());
        Ok(())
    }

    fn first_at_or_after(
        &self,
        from: &[u8],
    ) -> (r: Result<Option<(Vec<u8>, Vec<u8>)>, StoreError>) {
        proof {
            use_type_invariant(self);
        }
        let at = self.locate(from);
        proof {
            lemma_from_slot(self.key_seq(), self.value_seq(), from@, at as int);
            lemma_map_of_finite(self.key_seq(), self.value_seq());
        }
        if at < self.entries.len() {
            Ok(Some(self.record_at(at)))
        } else {
            Ok(None)
        }
    }

    fn first_after(&self, from: &[u8]) -> (r: Result<Option<(Vec<u8>, Vec<u8>)>, StoreError>) {
        proof {
            use_type_invariant(self);
        }
        let at = self.locate(from);
        proof {
            lemma_after_slot(self.key_seq(), self.value_seq(), from@, at as int);
            lemma_map_of_finite(self.key_seq(), self.value_seq());
        }
        let count = self.entries.len();
        let next = if at < count && self.holds_at(at, from) {
            at + 1
        } else {
            at
        };
        if next < self.entries.len() {
            Ok(Some(self.record_at(next)))
        } else {
            Ok(None)
        }
    }

    fn last_before(&self, bound: &[u8]) -> (r: Result<Option<(Vec<u8>, Vec<u8>)>, StoreError>) {
        proof {
            use_type_invariant(self);
        }
        let at = self.locate(bound);
        proof {
            lemma_from_slot(self.key_seq(), self.value_seq(), bound@, at as int);
            lemma_map_of_finite(self.key_seq(), self.value_seq());
        }
        if at > 0 {
            Ok(Some(self.record_at(at - 1)))
        } else {
            Ok(None)
        }
    }

    fn compact_range(&mut self, from: &[u8], to: &[u8]) {
        proof {
            use_type_invariant(&*self);
        }
        let mut compacted: Vec<(Vec<u8>, Vec<u8>)> = Vec::new();
        core::mem::swap(&mut self.compacted, &mut compacted);
        compacted.push((slice_to_vec(from), slice_to_vec(to)));
        core::mem::swap(&mut self.compacted, &mut compacted);
        assert(self.compacted_seq() =~= old(self).compacted_seq().push((from@, to@)));
        assert(self.key_seq() =~= old(self).key_seq());
        assert(self.value_seq() =~= old(self).value_seq());
    }
}

} // verus!
