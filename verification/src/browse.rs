//! Going through the logical keys and through the records of one key.

use vstd::prelude::*;
use vstd::string::StringSliceAdditionalSpecFns;
use vstd::utf8::{decode_utf8, encode_utf8, valid_utf8};
use crate::codec::{
    data_prefix, data_range_end, decode_meta_key, encode_data_key_sorted_set_prefix,
    encode_data_prefix, encode_data_range_end, encode_meta_key, join_bytes, meta_key, meta_prefix,
    sorted_set_prefix, tail_from,
};
use crate::database::Database;
use crate::error::{backend_fault, not_text, rejected, Error};
use crate::meta::{encode_meta, lemma_encode_parse, parse_meta, KeyMeta, KeyType, MetaView};
use crate::model::{
    collection, in_collection, is_empty, lemma_collection_finite, lemma_collection_remove,
    lemma_first_of_collection, lemma_meta_key, lemma_step, meta_at, meta_ok, DbView, Outcome,
};
use crate::scan::{
    is_full_run, is_long_visit, is_visit, lemma_walked, records_view, saturated, walk_failed,
    walked, Cursor, Walk,
};
use crate::store::{record_view, Contents, KvStore, Record};

verus! {

/// The prefix under which the records of a collection are walked: of a
/// sorted set the score-ordered records only.
pub open spec fn walk_base(m: MetaView) -> Seq<u8> {
    if m.key_type == KeyType::SortedSetKey {
        sorted_set_prefix(m.id)
    } else {
        data_prefix(m.id)
    }
}

/// The prefix of the records to walk for `name`, narrowed by `narrow`; none
/// when the key is not in use or counts nothing.
pub open spec fn walk_prefix(s: Contents, name: Seq<u8>, narrow: Option<Seq<u8>>) -> Option<
    Seq<u8>,
> {
    match meta_at(s, name) {
        None => None,
        Some(m) => if m.count == 0 {
            None
        } else {
            match narrow {
                None => Some(walk_base(m)),
                Some(tail) => Some(walk_base(m) + tail),
            }
        },
    }
}

/// The visitor `f`, shown the key and the value of `record`, gave `go`.
pub open spec fn answered_record<F: FnMut(Vec<u8>, Vec<u8>) -> bool>(
    f: F,
    record: Record,
    go: bool,
) -> bool {
    exists|k: Vec<u8>, v: Vec<u8>| k@ == record.0 && v@ == record.1 && call_ensures(f, (k, v), go)
}

/// How the visitor `f` answers when shown a record's key and value.
pub open spec fn record_answers<F: FnMut(Vec<u8>, Vec<u8>) -> bool>(f: F) -> spec_fn(
    Record,
    bool,
) -> bool {
    |record: Record, go: bool| answered_record(f, record, go)
}

/// The visitor `f`, shown the logical key and the metadata record that
/// `record` holds, gave `go`. Only a key that is text can be shown.
pub open spec fn answered_key<F: FnMut(&str, &KeyMeta) -> bool>(
    f: F,
    record: Record,
    go: bool,
) -> bool {
    exists|key: &str, meta: &KeyMeta|
        valid_utf8(tail_from(record.0, 3)) && key@ == decode_utf8(tail_from(record.0, 3))
            && parse_meta(record.1) == Some(meta@) && call_ensures(f, (key, meta), go)
}

/// How the visitor `f` answers when shown a logical key and its record.
pub open spec fn key_answers<F: FnMut(&str, &KeyMeta) -> bool>(f: F) -> spec_fn(
    Record,
    bool,
) -> bool {
    |record: Record, go: bool| answered_key(f, record, go)
}

/// The visitor `f` never says to stop.
pub open spec fn key_visitor_goes_on<F: FnMut(&str, &KeyMeta) -> bool>(f: F) -> bool {
    forall|key: &str, meta: &KeyMeta| !#[trigger] call_ensures(f, (key, meta), false)
}

/// Whether the logical key that a record holds is text.
pub open spec fn key_is_text() -> spec_fn(Record) -> bool {
    |record: Record| valid_utf8(tail_from(record.0, 3))
}

/// Every logical key in use that starts with `prefix` is text.
pub open spec fn keys_are_text(s: Contents, prefix: Seq<u8>) -> bool {
    forall|name: Seq<u8>|
        s.contains_key(#[trigger] meta_key(name)) && prefix.is_prefix_of(name) ==> valid_utf8(name)
}

/// A walk over the logical keys with prefix `p` showed the visitor `n` of
/// them: the first `n` of all that there are. When `n` is above `limit`, it
/// is one more, the visitor said to go on at each of the first `limit` keys,
/// and the walk stopped at the next. When `n` stands at `usize::MAX`, beyond
/// which the count does not go, that many keys were shown at the least.
pub open spec fn walked_within(
    s: Contents,
    p: Seq<u8>,
    answered: spec_fn(Record, bool) -> bool,
    limit: usize,
    n: usize,
) -> bool {
    forall|full: Seq<Record>| #[trigger]
        is_full_run(s, p, full) ==> if n > limit {
            n == limit + 1 && is_long_visit(full, answered, n as nat)
        } else if n < usize::MAX {
            is_visit(full, answered, n as u64)
        } else {
            is_long_visit(full, answered, n as nat)
        }
}

/// A walk that ended within its limit showed what its count says.
proof fn lemma_walked_within(
    s: Contents,
    p: Seq<u8>,
    answered: spec_fn(Record, bool) -> bool,
    limit: usize,
    count: u64,
    shown: nat,
    n: usize,
)
    requires
        walked(s, Some(p), answered, count),
        forall|full: Seq<Record>| #[trigger]
            is_full_run(s, p, full) ==> is_long_visit(full, answered, shown),
        count == saturated(shown),
        limit < usize::MAX ==> count <= limit,
        count <= usize::MAX ==> n == count,
        count > usize::MAX ==> n == usize::MAX,
    ensures
        walked_within(s, p, answered, limit, n),
{
    assert forall|full: Seq<Record>| #[trigger] is_full_run(s, p, full) implies (if n > limit {
        n == limit + 1 && is_long_visit(full, answered, n as nat)
    } else if n < usize::MAX {
        is_visit(full, answered, n as u64)
    } else {
        is_long_visit(full, answered, n as nat)
    }) by {
        lemma_walked(s, p, answered, count, full);
    }
}

/// A key that starts with the metadata key of `prefix` is the metadata key
/// of a logical key that starts with `prefix`.
proof fn lemma_key_under_prefix(prefix: Seq<u8>, k: Seq<u8>)
    requires
        meta_key(prefix).is_prefix_of(k),
    ensures
        k == meta_key(tail_from(k, 3)),
        prefix.is_prefix_of(tail_from(k, 3)),
{
    let p = meta_key(prefix);
    let name = tail_from(k, 3);
    assert(k.subrange(0, 3) =~= p.subrange(0, 3));
    assert(p.subrange(0, 3) =~= meta_prefix());
    assert(k =~= meta_key(name));
    assert(name.subrange(0, prefix.len() as int) =~= k.subrange(3, 3 + prefix.len() as int));
    assert(k.subrange(0, p.len() as int) == p);
    assert(k.subrange(3, 3 + prefix.len() as int) =~= p.subrange(3, p.len() as int));
    assert(p.subrange(3, p.len() as int) =~= prefix);
}

/// When every key of a full run was shown to the visitor, every logical key
/// under the prefix is text.
proof fn lemma_shown_keys_are_text(
    s: Contents,
    prefix: Seq<u8>,
    answered: spec_fn(Record, bool) -> bool,
    full: Seq<Record>,
)
    requires
        is_full_run(s, meta_key(prefix), full),
        forall|i: int| 0 <= i < full.len() ==> answered(#[trigger] full[i], true),
        forall|record: Record| #[trigger]
            answered(record, true) ==> valid_utf8(tail_from(record.0, 3)),
    ensures
        keys_are_text(s, prefix),
{
    let p = meta_key(prefix);
    assert forall|name: Seq<u8>|
        s.contains_key(#[trigger] meta_key(name)) && prefix.is_prefix_of(name) implies valid_utf8(
        name,
    ) by {
        lemma_meta_key(name);
        assert(p.is_prefix_of(meta_key(name))) by {
            assert(meta_key(name).subrange(0, p.len() as int) =~= meta_prefix() + name.subrange(
                0,
                prefix.len() as int,
            ));
        }
        assert(crate::scan::listed(full, meta_key(name)));
        let j = choose|j: int| 0 <= j < full.len() && (#[trigger] full[j]).0 == meta_key(name);
        assert(answered(full[j], true));
    }
}

/// The records that a list of logical keys with their metadata stands for.
pub open spec fn key_records(list: Seq<(String, KeyMeta)>) -> Seq<Record> {
    Seq::new(list.len(), |i: int| (meta_key(encode_utf8(list[i].0@)), encode_meta(list[i].1@)))
}

/// Removes the collection of `name` with all its records, and asks the store
/// to compact its range. Hands back the number of records removed.
pub open spec fn delete_all_spec(pre: DbView, name: Seq<u8>) -> Outcome<u64> {
    match meta_at(pre.records, name) {
        None => Outcome { state: pre, result: Some(0u64) },
        Some(m) => Outcome {
            state: pre.with_compaction(data_prefix(m.id), data_range_end(m.id)).with_records(
                pre.records.remove_keys(collection(pre.records, m.id).dom()).remove(meta_key(name)),
            ),
            result: Some(saturated(collection(pre.records, m.id).dom().len())),
        },
    }
}

/// The mathematical content of text that may be missing, as bytes.
pub open spec fn text_view(t: Option<&str>) -> Option<Seq<u8>> {
    match t {
        Some(t) => Some(t.spec_bytes()),
        None => None,
    }
}

impl<S: KvStore> Database<S> {
    /// The prefix of the records to walk for `name`.
    pub(crate) fn find_walk_prefix(&self, name: &[u8], narrow: Option<&str>) -> (r: Result<
        Option<Vec<u8>>,
        Error,
    >)
        ensures
            backend_fault(r) ==> !self.store.reliable(),
            !not_text(r),
            self@.inv() ==> !rejected(r),
            r matches Ok(p) ==> crate::store::value_view(p) == walk_prefix(
                self@.records,
                name@,
                text_view(narrow),
            ),
    {
        match self.get_meta(name)? {
            None => Ok(None),
            Some(meta) => {
                if meta.count == 0 {
                    return Ok(None);
                }
                let base = match meta.key_type {
                    KeyType::SortedSetKey => encode_data_key_sorted_set_prefix(meta.id),
                    _ => encode_data_prefix(meta.id),
                };
                match narrow {
                    None => Ok(Some(base)),
                    Some(tail) => Ok(Some(join_bytes(base.as_slice(), tail.as_bytes()))),
                }
            },
        }
    }

    /// All records whose keys start with `prefix`, in the order of the keys.
    pub(crate) fn collect_run(&self, prefix: &[u8]) -> (r: Result<Vec<(Vec<u8>, Vec<u8>)>, Error>)
        ensures
            r is Err ==> backend_fault(r) && !self.store.reliable(),
            r matches Ok(list) ==> is_full_run(self@.records, prefix@, records_view(list@)),
    {
        let ghost s = self.store.contents();
        let mut cursor = Cursor::new(prefix);
        let mut list: Vec<(Vec<u8>, Vec<u8>)> = Vec::new();
        assert(records_view(list@) =~= cursor.taken@);
        loop
            invariant
                s == self.store.contents(),
                cursor.inv(s),
                cursor.prefix@ == prefix@,
                records_view(list@) == cursor.taken@,
            ensures
                is_full_run(s, prefix@, cursor.taken@),
            decreases cursor.remaining(s),
        {
            let found = match cursor.next(&self.store) {
                Ok(found) => found,
                Err(e) => {
                    return Err(Error::Backend(e));
                },
            };
            match found {
                None => {
                    proof {
                        cursor.lemma_inv(s);
                    }
                    break ;
                },
                Some(record) => {
                    let ghost before = list@;
                    list.push(record);
                    assert(records_view(list@) =~= records_view(before).push(
                        (record.0@, record.1@),
                    ));
                },
            }
        }
        Ok(list)
    }

    /// Shows `f` the logical keys that start with `prefix`, in bytewise order
    /// and each with its metadata record, until `f` says to stop or `limit`
    /// keys were shown.
    fn walk_keys<F: FnMut(&str, &KeyMeta) -> bool>(
        &self,
        prefix: &[u8],
        limit: usize,
        f: F,
    ) -> (r: Result<usize, Error>)
        requires
            forall|key: &str, meta: &KeyMeta| call_requires(f, (key, meta)),
        ensures
            backend_fault(r) ==> !self.store.reliable(),
            self@.inv() ==> !rejected(r),
            keys_are_text(self@.records, prefix@) ==> !not_text(r),
            not_text(r) ==> walk_failed(
                self@.records,
                meta_key(prefix@),
                key_answers(f),
                key_is_text(),
                limit,
            ),
            r matches Ok(n) ==> walked_within(
                self@.records,
                meta_key(prefix@),
                key_answers(f),
                limit,
                n,
            ),
            r matches Ok(n) && n <= limit && key_visitor_goes_on(f) ==> keys_are_text(
                self@.records,
                prefix@,
            ),
    {
        let start = encode_meta_key(prefix);
        let ghost s = self.store.contents();
        let ghost answered = key_answers(f);
        let ghost p = meta_key(prefix@);
        let mut visit = f;
        let mut walk = Walk::new(start.as_slice());
        loop
            invariant
                s == self.store.contents(),
                walk.inv(s, answered),
                walk.settled(answered),
                walk.cursor.prefix@ == p,
                p == meta_key(prefix@),
                limit < usize::MAX ==> walk.count <= limit,
                visit == f,
                answered == key_answers(f),
                forall|key: &str, meta: &KeyMeta| call_requires(f, (key, meta)),
            decreases walk.cursor.remaining(s),
        {
            let found = match walk.next(&self.store, Ghost(answered)) {
                Ok(found) => found,
                Err(e) => {
                    return Err(Error::Backend(e));
                },
            };
            let (k, v) = match found {
                None => {
                    let n = count_as_usize(walk.count);
                    proof {
                        walk.cursor.lemma_inv(s);
                        assert forall|i: int| 0 <= i < walk.cursor.taken@.len() implies answered(
                            #[trigger] walk.cursor.taken@[i],
                            true,
                        ) by {}
                        lemma_shown_keys_are_text(s, prefix@, answered, walk.cursor.taken@);
                        walk.lemma_finished(s, answered, true);
                        walk.lemma_shown(s, answered);
                        lemma_walked_within(
                            s,
                            p,
                            answered,
                            limit,
                            walk.count,
                            walk.cursor.taken@.len(),
                            n,
                        );
                    }
                    return Ok(n);
                },
                Some(record) => record,
            };
            proof {
                walk.cursor.lemma_inv(s);
                let name = tail_from(k@, 3);
                lemma_meta_key(name);
                assert(walk.cursor.taken@.last() == (k@, v@));
                assert(s.contains_key(walk.cursor.taken@.last().0));
                assert(p.is_prefix_of(walk.cursor.taken@.last().0));
                lemma_key_under_prefix(prefix@, k@);
                if self@.inv() {
                    assert(meta_ok(s, name, self@.next_key_id));
                }
            }
            if limit < usize::MAX && walk.count as u128 > limit as u128 {
                proof {
                    walk.lemma_shown(s, answered);
                }
                return Ok(count_as_usize(walk.count));
            }
            let key = match decode_meta_key(k.as_slice()) {
                Ok(key) => key,
                Err(e) => {
                    proof {
                        walk.lemma_failed(s, answered, key_is_text(), limit);
                    }
                    return Err(Error::InvalidUtf8(e));
                },
            };
            let meta = match KeyMeta::from_bytes(v.as_slice()) {
                Some(meta) => meta,
                None => {
                    return Err(Error::message("the metadata record cannot be read"));
                },
            };
            let go = visit(key.as_str(), &meta);
            assert(answered((k@, v@), go)) by {
                assert(answered_key(f, (k@, v@), go));
            }
            if !go {
                let n = count_as_usize(walk.count);
                proof {
                    walk.lemma_finished(s, answered, false);
                    walk.lemma_shown(s, answered);
                    lemma_walked_within(
                        s,
                        p,
                        answered,
                        limit,
                        walk.count,
                        walk.cursor.taken@.len(),
                        n,
                    );
                }
                return Ok(n);
            }
        }
    }

    /// Shows `f` every logical key with its metadata record, in bytewise
    /// order, until `f` says to stop. Hands back the number of keys shown.
    /// Fails at the first key that is not text, if the walk comes to it.
    pub fn for_each_key<F: FnMut(&str, &KeyMeta) -> bool>(&self, f: F) -> (r: Result<usize, Error>)
        requires
            forall|key: &str, meta: &KeyMeta| call_requires(f, (key, meta)),
        ensures
            backend_fault(r) ==> !self.store.reliable(),
            self@.inv() ==> !rejected(r),
            keys_are_text(self@.records, Seq::empty()) ==> !not_text(r),
            not_text(r) ==> walk_failed(
                self@.records,
                meta_prefix(),
                key_answers(f),
                key_is_text(),
                usize::MAX,
            ),
            r matches Ok(n) ==> walked_within(
                self@.records,
                meta_prefix(),
                key_answers(f),
                usize::MAX,
                n,
            ),
            r is Ok && key_visitor_goes_on(f) ==> keys_are_text(self@.records, Seq::empty()),
    {
        let none: Vec<u8> = Vec::new();
        assert(meta_key(none@) =~= meta_prefix());
        self.walk_keys(none.as_slice(), usize::MAX, f)
    }

    /// Shows `f` the logical keys as `for_each_key` does, `limit` of them at
    /// most. Hands back the number of keys shown, or one more than `limit`
    /// when there are more keys than that. A key that is not text fails the
    /// walk only when it is among the first `limit`. A limit of `usize::MAX`
    /// is no limit.
    pub fn for_each_key_with_limit<F: FnMut(&str, &KeyMeta) -> bool>(
        &self,
        limit: usize,
        f: F,
    ) -> (r: Result<usize, Error>)
        requires
            forall|key: &str, meta: &KeyMeta| call_requires(f, (key, meta)),
        ensures
            backend_fault(r) ==> !self.store.reliable(),
            self@.inv() ==> !rejected(r),
            keys_are_text(self@.records, Seq::empty()) ==> !not_text(r),
            not_text(r) ==> walk_failed(
                self@.records,
                meta_prefix(),
                key_answers(f),
                key_is_text(),
                limit,
            ),
            r matches Ok(n) ==> walked_within(
                self@.records,
                meta_prefix(),
                key_answers(f),
                limit,
                n,
            ),
            r matches Ok(n) && n <= limit && key_visitor_goes_on(f) ==> keys_are_text(
                self@.records,
                Seq::empty(),
            ),
    {
        let none: Vec<u8> = Vec::new();
        assert(meta_key(none@) =~= meta_prefix());
        self.walk_keys(none.as_slice(), limit, f)
    }

    /// Shows `f` the logical keys that start with `prefix`, as
    /// `for_each_key` does.
    pub fn for_each_key_with_prefix<F: FnMut(&str, &KeyMeta) -> bool>(
        &self,
        prefix: &str,
        f: F,
    ) -> (r: Result<usize, Error>)
        requires
            forall|key: &str, meta: &KeyMeta| call_requires(f, (key, meta)),
        ensures
            backend_fault(r) ==> !self.store.reliable(),
            self@.inv() ==> !rejected(r),
            keys_are_text(self@.records, prefix.spec_bytes()) ==> !not_text(r),
            not_text(r) ==> walk_failed(
                self@.records,
                meta_key(prefix.spec_bytes()),
                key_answers(f),
                key_is_text(),
                usize::MAX,
            ),
            r matches Ok(n) ==> walked_within(
                self@.records,
                meta_key(prefix.spec_bytes()),
                key_answers(f),
                usize::MAX,
                n,
            ),
            r is Ok && key_visitor_goes_on(f) ==> keys_are_text(
                self@.records,
                prefix.spec_bytes(),
            ),
    {
        self.walk_keys(prefix.as_bytes(), usize::MAX, f)
    }

    /// The logical keys that start with `prefix`, in bytewise order, each
    /// with its metadata record.
    fn list_keys(&self, prefix: &[u8]) -> (r: Result<Vec<(String, KeyMeta)>, Error>)
        ensures
            backend_fault(r) ==> !self.store.reliable(),
            self@.inv() ==> !rejected(r),
            keys_are_text(self@.records, prefix@) ==> !not_text(r),
            r is Ok ==> keys_are_text(self@.records, prefix@),
            r matches Ok(list) ==> is_full_run(
                self@.records,
                meta_key(prefix@),
                key_records(list@),
            ),
    {
        let start = encode_meta_key(prefix);
        let raw = match self.collect_run(start.as_slice()) {
            Ok(raw) => raw,
            Err(e) => {
                return Err(e);
            },
        };
        let ghost s = self.store.contents();
        let ghost p = meta_key(prefix@);
        let ghost full = records_view(raw@);
        let mut list: Vec<(String, KeyMeta)> = Vec::new();
        let mut i: usize = 0;
        while i < raw.len()
            invariant
                i <= raw@.len(),
                s == self.store.contents(),
                p == meta_key(prefix@),
                full == records_view(raw@),
                is_full_run(s, p, full),
                list@.len() == i,
                forall|j: int| 0 <= j < i ==> #[trigger] key_records(list@)[j] == full[j],
                forall|j: int| 0 <= j < i ==> valid_utf8(tail_from((#[trigger] full[j]).0, 3)),
            decreases raw@.len() - i,
        {
            let k = &raw[i].0;
            let v = &raw[i].1;
            proof {
                let name = tail_from(k@, 3);
                lemma_meta_key(name);
                assert(full[i as int] == (k@, v@));
                assert(s.contains_key(full[i as int].0));
                assert(p.is_prefix_of(full[i as int].0));
                lemma_key_under_prefix(prefix@, k@);
                if self@.inv() {
                    assert(meta_ok(s, name, self@.next_key_id));
                }
            }
            let key = match decode_meta_key(k.as_slice()) {
                Ok(key) => key,
                Err(e) => {
                    return Err(Error::InvalidUtf8(e));
                },
            };
            let meta = match KeyMeta::from_bytes(v.as_slice()) {
                Some(meta) => meta,
                None => {
                    return Err(Error::message("the metadata record cannot be read"));
                },
            };
            let ghost before = key_records(list@);
            let ghost shown = (meta_key(encode_utf8(key@)), encode_meta(meta@));
            proof {
                vstd::utf8::decode_utf8_encode_utf8(tail_from(k@, 3));
                lemma_encode_parse(v@);
                assert(shown == full[i as int]);
            }
            list.push((key, meta));
            proof {
                assert forall|j: int| 0 <= j < i + 1 implies #[trigger] key_records(list@)[j]
                    == full[j] by {
                    if j < i {
                        assert(key_records(list@)[j] == before[j]);
                    }
                }
            }
            i += 1;
        }
        proof {
            assert(key_records(list@) =~= full);
            assert forall|name: Seq<u8>|
                s.contains_key(#[trigger] meta_key(name)) && prefix@.is_prefix_of(
                    name,
                ) implies valid_utf8(name) by {
                lemma_meta_key(name);
                assert(p.is_prefix_of(meta_key(name))) by {
                    assert(meta_key(name).subrange(0, p.len() as int) =~= meta_prefix()
                        + name.subrange(0, prefix@.len() as int));
                }
                assert(crate::scan::listed(full, meta_key(name)));
                let j = choose|j: int|
                    0 <= j < full.len() && (#[trigger] full[j]).0 == meta_key(name);
                assert(valid_utf8(tail_from(full[j].0, 3)));
            }
        }
        Ok(list)
    }

    /// Every logical key with its metadata record, in bytewise order.
    pub fn keys(&self) -> (r: Result<Vec<(String, KeyMeta)>, Error>)
        ensures
            backend_fault(r) ==> !self.store.reliable(),
            self@.inv() ==> !rejected(r),
            keys_are_text(self@.records, Seq::empty()) ==> !not_text(r),
            r is Ok ==> keys_are_text(self@.records, Seq::empty()),
            r matches Ok(list) ==> is_full_run(self@.records, meta_prefix(), key_records(list@)),
    {
        let none: Vec<u8> = Vec::new();
        assert(meta_key(none@) =~= meta_prefix());
        self.list_keys(none.as_slice())
    }

    /// The logical keys that start with `prefix`, each with its metadata
    /// record, in bytewise order.
    pub fn keys_with_prefix(&self, prefix: &str) -> (r: Result<Vec<(String, KeyMeta)>, Error>)
        ensures
            backend_fault(r) ==> !self.store.reliable(),
            self@.inv() ==> !rejected(r),
            keys_are_text(self@.records, prefix.spec_bytes()) ==> !not_text(r),
            r is Ok ==> keys_are_text(self@.records, prefix.spec_bytes()),
            r matches Ok(list) ==> is_full_run(
                self@.records,
                meta_key(prefix.spec_bytes()),
                key_records(list@),
            ),
    {
        self.list_keys(prefix.as_bytes())
    }

    /// Removes the collection of `key`: every record of it, then its
    /// metadata record. Hands back the number of records removed.
    pub fn delete_all(&mut self, key: &str) -> (r: Result<u64, Error>)
        ensures
            final(self).options == old(self).options,
            final(self).store.reliable() == old(self).store.reliable(),
            backend_fault(r) ==> !old(self).store.reliable(),
            !not_text(r),
            old(self)@.inv() && !backend_fault(r) ==> {
                let out = delete_all_spec(old(self)@, key.spec_bytes());
                &&& final(self)@ == out.state
                &&& final(self)@.inv()
                &&& match r {
                    Ok(n) => out.result == Some(n),
                    Err(_) => out.result is None,
                }
            },
    {
        let name = key.as_bytes();
        let ghost pre = self@;
        let meta = match self.get_meta(name)? {
            None => {
                return Ok(0);
            },
            Some(meta) => meta,
        };
        let ghost id = meta.id;
        let ghost s0 = pre.records;
        let ghost c0 = collection(s0, id);
        let prefix = encode_data_prefix(meta.id);
        let mut deletes_count: u64 = 0;
        let ghost gone: Set<Seq<u8>> = Set::empty();
        assert(s0.remove_keys(gone) =~= s0);
        loop
            invariant
                self.options == old(self).options,
                self.store.reliable() == old(self).store.reliable(),
                self.next_key_id == pre.next_key_id,
                self.store.compactions() == pre.compactions,
                prefix@ == data_prefix(id),
                c0 == collection(s0, id),
                gone.finite(),
                gone.subset_of(c0.dom()),
                self.store.contents() == s0.remove_keys(gone),
                deletes_count == saturated(gone.len()),
            ensures
                is_empty(collection(self.store.contents(), id)),
            decreases collection(self.store.contents(), id).dom().len(),
        {
            let ghost cur = self.store.contents();
            let found = match self.store.first_at_or_after(prefix.as_slice()) {
                Ok(found) => found,
                Err(e) => {
                    return Err(Error::Backend(e));
                },
            };
            proof {
                lemma_first_of_collection(cur, id, record_view(found));
                lemma_collection_finite(cur, id);
            }
            let k = match found {
                None => {
                    break ;
                },
                Some(record) => record.0,
            };
            if !crate::lex::has_prefix(prefix.as_slice(), k.as_slice()) {
                break ;
            }
            match self.store.delete(k.as_slice()) {
                Ok(()) => {},
                Err(e) => {
                    return Err(Error::Backend(e));
                },
            }
            if deletes_count < u64::MAX {
                deletes_count = deletes_count + 1;
            }
            proof {
                assert(collection(cur, id).contains_key(k@));
                assert(cur == s0.remove_keys(gone));
                assert(cur.dom().contains(k@));
                assert(s0.dom().contains(k@) && !gone.contains(k@));
                assert(in_collection(id, k@));
                assert(c0.dom().contains(k@));
                assert(!gone.contains(k@));
                lemma_collection_remove(cur, id, k@);
                assert(collection(cur, id).remove(k@).dom() =~= collection(cur, id).dom().remove(
                    k@,
                ));
                assert(cur.remove(k@) =~= s0.remove_keys(gone.insert(k@)));
                gone = gone.insert(k@);
            }
        }
        let meta_key = encode_meta_key(name);
        match self.store.delete(meta_key.as_slice()) {
            Ok(()) => {},
            Err(e) => {
                return Err(Error::Backend(e));
            },
        }
        let end = encode_data_range_end(meta.id);
        self.store.compact_range(prefix.as_slice(), end.as_slice());
        proof {
            assert(gone =~= c0.dom()) by {
                assert forall|k: Seq<u8>| c0.dom().contains(k) implies gone.contains(k) by {
                    if !gone.contains(k) {
                        assert(collection(s0.remove_keys(gone), id).contains_key(k));
                    }
                }
            }
            if pre.inv() {
                let s2 = self@.records;
                lemma_meta_key(name@);
                assert(meta_ok(s0, name@, pre.next_key_id));
                vstd::set_lib::lemma_len_subset(s2.dom(), s0.dom());
                assert(is_empty(collection(s2, id))) by {
                    assert forall|k: Seq<u8>| !collection(s2, id).contains_key(k) by {
                        if collection(s2, id).contains_key(k) {
                            assert(collection(s0.remove_keys(gone), id).contains_key(k));
                        }
                    }
                }
                lemma_step(s0, pre.next_key_id, s2, pre.next_key_id, name@, id);
            }
        }
        Ok(deletes_count)
    }

    /// Shows `f` the records of `key` whose keys, after the collection's
    /// prefix, start with `prefix`, in the order of the keys, until `f` says
    /// to stop. Hands back the number of records shown.
    pub fn for_each_data<F: FnMut(Vec<u8>, Vec<u8>) -> bool>(
        &self,
        key: &str,
        prefix: Option<&str>,
        f: F,
    ) -> (r: Result<u64, Error>)
        requires
            forall|k: Vec<u8>, v: Vec<u8>| call_requires(f, (k, v)),
        ensures
            backend_fault(r) ==> !self.store.reliable(),
            !not_text(r),
            self@.inv() ==> !rejected(r),
            r matches Ok(n) ==> walked(
                self@.records,
                walk_prefix(self@.records, key.spec_bytes(), text_view(prefix)),
                record_answers(f),
                n,
            ),
    {
        let start = match self.find_walk_prefix(key.as_bytes(), prefix)? {
            None => {
                return Ok(0);
            },
            Some(start) => start,
        };
        let ghost s = self.store.contents();
        let ghost answered = record_answers(f);
        let mut visit = f;
        let mut walk = Walk::new(start.as_slice());
        loop
            invariant
                s == self.store.contents(),
                walk.inv(s, answered),
                walk.settled(answered),
                walk.cursor.prefix@ == start@,
                visit == f,
                answered == record_answers(f),
                forall|k: Vec<u8>, v: Vec<u8>| call_requires(f, (k, v)),
                walk_prefix(self@.records, key.spec_bytes(), text_view(prefix)) == Some(start@),
            decreases walk.cursor.remaining(s),
        {
            let found = match walk.next(&self.store, Ghost(answered)) {
                Ok(found) => found,
                Err(e) => {
                    return Err(Error::Backend(e));
                },
            };
            match found {
                None => {
                    proof {
                        walk.lemma_finished(s, answered, true);
                    }
                    return Ok(walk.count);
                },
                Some((k, v)) => {
                    let ghost record = (k@, v@);
                    let go = visit(k, v);
                    assert(answered(record, go));
                    if !go {
                        proof {
                            walk.lemma_finished(s, answered, false);
                        }
                        return Ok(walk.count);
                    }
                },
            }
        }
    }
}

/// A count as a `usize`, held at the greatest when it is beyond it.
pub fn count_as_usize(n: u64) -> (r: usize)
    ensures
        n <= usize::MAX ==> r == n,
        n > usize::MAX ==> r == usize::MAX,
{
    if n as u128 <= usize::MAX as u128 {
        n as usize
    } else {
        usize::MAX
    }
}

} // verus!
