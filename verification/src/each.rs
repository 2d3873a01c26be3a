//! Showing the items of a collection to a visitor, and listing them.
//!
//! Every walk goes through the records of the collection in the order of
//! their keys. What a record shows of itself depends on the type of the
//! collection: a map shows the field and the value, a set the member, a
//! list the value, a sorted list and a sorted set the score and the value.

use vstd::prelude::*;
use vstd::slice::slice_to_vec;
use vstd::string::StringSliceAdditionalSpecFns;
use vstd::utf8::{decode_utf8, valid_utf8};
use crate::browse::walk_prefix;
use crate::codec::{
    decode_data_key_map_item, decode_data_key_set_item, decode_data_key_sorted_list_item,
    decode_data_key_sorted_set_item_with_score, sorted_list_score_of, sorted_set_pair_of, tail_from,
};
use crate::database::Database;
use crate::error::{backend_fault, not_text, rejected, Error};
use crate::meta::KeyType;
use crate::model::meta_at;
use crate::scan::{is_full_run, lemma_full_run_unique, records_view, walk_failed, walked, Walk};
use crate::store::{Contents, KvStore, Record};

verus! {

/// What a record of a map shows: the field as text, and the value.
pub open spec fn shown_field(record: Record) -> (Seq<char>, Seq<u8>) {
    (decode_utf8(tail_from(record.0, 10)), record.1)
}

/// What a record of a set shows: the member.
pub open spec fn shown_member(record: Record) -> Seq<u8> {
    tail_from(record.0, 10)
}

/// What a record of a list shows: the value.
pub open spec fn shown_value(record: Record) -> Seq<u8> {
    record.1
}

/// What a record of a sorted list shows: the score and the value.
pub open spec fn shown_scored(record: Record) -> (Seq<u8>, Seq<u8>) {
    (sorted_list_score_of(record.0), record.1)
}

/// What a forward record of a sorted set shows, for scores of `score_len`
/// bytes: the score and the member.
pub open spec fn shown_pair(record: Record, score_len: u8) -> (Seq<u8>, Seq<u8>) {
    sorted_set_pair_of(record.0, score_len)
}

/// The length of the scores of the sorted set of `name`; zero when the key
/// is not in use or holds another type of collection.
pub open spec fn score_len_of(s: Contents, name: Seq<u8>) -> u8 {
    match meta_at(s, name) {
        Some(m) => if m.key_type == KeyType::SortedSetKey && m.extra.len() == 5 {
            m.score_len()
        } else {
            0u8
        },
        None => 0u8,
    }
}

/// The tail, after the collection's prefix, of every key of `s` that starts
/// with `p` is text.
pub open spec fn tails_are_text(s: Contents, p: Option<Seq<u8>>) -> bool {
    forall|k: Seq<u8>| #[trigger]
        s.contains_key(k) && p is Some && p.unwrap().is_prefix_of(k) ==> valid_utf8(
            tail_from(k, 10),
        )
}

/// The visitor `f` of a map never says to stop.
pub open spec fn field_visitor_goes_on<F: FnMut(&str, Vec<u8>) -> bool>(f: F) -> bool {
    forall|field: &str, value: Vec<u8>| !#[trigger] call_ensures(f, (field, value), false)
}

/// Whether the field that a record of a map holds is text.
pub open spec fn field_is_text() -> spec_fn(Record) -> bool {
    |record: Record| valid_utf8(tail_from(record.0, 10))
}

/// A walk over the records with prefix `p` came to grief at a record that
/// cannot be read, after the visitor said to go on at each record before it.
/// No walk is made, and none fails, where there is no prefix.
pub open spec fn walk_failed_under(
    s: Contents,
    p: Option<Seq<u8>>,
    answered: spec_fn(Record, bool) -> bool,
    readable: spec_fn(Record) -> bool,
) -> bool {
    match p {
        Some(p) => walk_failed(s, p, answered, readable, usize::MAX),
        None => false,
    }
}

/// When every record of a full run was shown to the visitor of a map, the
/// tail of every key under the prefix is text.
proof fn lemma_shown_fields_are_text(
    s: Contents,
    p: Seq<u8>,
    answered: spec_fn(Record, bool) -> bool,
    full: Seq<Record>,
)
    requires
        is_full_run(s, p, full),
        forall|i: int| 0 <= i < full.len() ==> answered(#[trigger] full[i], true),
        forall|record: Record| #[trigger]
            answered(record, true) ==> valid_utf8(tail_from(record.0, 10)),
    ensures
        tails_are_text(s, Some(p)),
{
    assert forall|k: Seq<u8>| #[trigger] s.contains_key(k) && p.is_prefix_of(k) implies valid_utf8(
        tail_from(k, 10),
    ) by {
        assert(crate::scan::listed(full, k));
        let j = choose|j: int| 0 <= j < full.len() && (#[trigger] full[j]).0 == k;
        assert(answered(full[j], true));
    }
}

/// `out` is what all records of `s` with prefix `p` show, in the order of
/// their keys.
pub open spec fn shows_under<T>(
    s: Contents,
    p: Seq<u8>,
    shown: spec_fn(Record) -> T,
    out: Seq<T>,
) -> bool {
    forall|full: Seq<Record>| #[trigger] is_full_run(s, p, full) ==> out == full.map_values(shown)
}

/// `out` is what all records of `s` with prefix `p` show, in the order of
/// their keys; nothing when there is no such prefix.
pub open spec fn shows<T>(
    s: Contents,
    p: Option<Seq<u8>>,
    shown: spec_fn(Record) -> T,
    out: Seq<T>,
) -> bool {
    match p {
        None => out.len() == 0,
        Some(p) => shows_under(s, p, shown, out),
    }
}

/// The mathematical content of a list of fields with their values.
pub open spec fn fields_view(v: Seq<(String, Vec<u8>)>) -> Seq<(Seq<char>, Seq<u8>)> {
    Seq::new(v.len(), |i: int| (v[i].0@, v[i].1@))
}

/// The mathematical content of a list of byte strings.
pub open spec fn values_view(v: Seq<Vec<u8>>) -> Seq<Seq<u8>> {
    Seq::new(v.len(), |i: int| v[i]@)
}

/// The visitor `f`, shown the field and the value of a record of a map, gave
/// `go`. Only a field that is text can be shown.
pub open spec fn answered_field<F: FnMut(&str, Vec<u8>) -> bool>(
    f: F,
    record: Record,
    go: bool,
) -> bool {
    exists|field: &str, value: Vec<u8>|
        valid_utf8(tail_from(record.0, 10)) && (field@, value@) == shown_field(record)
            && call_ensures(f, (field, value), go)
}

/// How the visitor `f` answers when shown a record.
pub open spec fn field_answers<F: FnMut(&str, Vec<u8>) -> bool>(f: F) -> spec_fn(
    Record,
    bool,
) -> bool {
    |record: Record, go: bool| answered_field(f, record, go)
}

/// The visitor `f`, shown what `record` shows, gave `go`.
pub open spec fn answered_member<F: FnMut(Vec<u8>) -> bool>(
    f: F,
    record: Record,
    go: bool,
) -> bool {
    exists|member: Vec<u8>|
        member@ == shown_member(record) && call_ensures(f, (member,), go)
}

/// How the visitor `f` answers when shown a record.
pub open spec fn member_answers<F: FnMut(Vec<u8>) -> bool>(f: F) -> spec_fn(
    Record,
    bool,
) -> bool {
    |record: Record, go: bool| answered_member(f, record, go)
}

/// The visitor `f`, shown what `record` shows, gave `go`.
pub open spec fn answered_value<F: FnMut(Vec<u8>) -> bool>(
    f: F,
    record: Record,
    go: bool,
) -> bool {
    exists|value: Vec<u8>|
        value@ == shown_value(record) && call_ensures(f, (value,), go)
}

/// How the visitor `f` answers when shown a record.
pub open spec fn value_answers<F: FnMut(Vec<u8>) -> bool>(f: F) -> spec_fn(
    Record,
    bool,
) -> bool {
    |record: Record, go: bool| answered_value(f, record, go)
}

/// The visitor `f`, shown what `record` shows, gave `go`.
pub open spec fn answered_scored<F: FnMut((Vec<u8>, Vec<u8>)) -> bool>(
    f: F,
    record: Record,
    go: bool,
) -> bool {
    exists|item: (Vec<u8>, Vec<u8>)|
        (item.0@, item.1@) == shown_scored(record) && call_ensures(f, (item,), go)
}

/// How the visitor `f` answers when shown a record.
pub open spec fn scored_answers<F: FnMut((Vec<u8>, Vec<u8>)) -> bool>(f: F) -> spec_fn(
    Record,
    bool,
) -> bool {
    |record: Record, go: bool| answered_scored(f, record, go)
}

/// The visitor `f`, shown what the forward record `record` shows, gave `go`.
pub open spec fn answered_pair<F: FnMut((Vec<u8>, Vec<u8>)) -> bool>(
    f: F,
    score_len: u8,
    record: Record,
    go: bool,
) -> bool {
    exists|item: (Vec<u8>, Vec<u8>)|
        (item.0@, item.1@) == shown_pair(record, score_len) && call_ensures(f, (item,), go)
}

/// How the visitor `f` answers when shown a forward record.
pub open spec fn pair_answers<F: FnMut((Vec<u8>, Vec<u8>)) -> bool>(f: F, score_len: u8) -> spec_fn(
    Record,
    bool,
) -> bool {
    |record: Record, go: bool| answered_pair(f, score_len, record, go)
}

/// What a record of a map shows.
pub open spec fn field_shower() -> spec_fn(Record) -> (Seq<char>, Seq<u8>) {
    |record: Record| shown_field(record)
}

/// What a record of a set shows.
pub open spec fn member_shower() -> spec_fn(Record) -> Seq<u8> {
    |record: Record| shown_member(record)
}

/// What a record of a list shows.
pub open spec fn value_shower() -> spec_fn(Record) -> Seq<u8> {
    |record: Record| shown_value(record)
}

/// What a record of a sorted list shows.
pub open spec fn scored_shower() -> spec_fn(Record) -> (Seq<u8>, Seq<u8>) {
    |record: Record| shown_scored(record)
}

/// What a forward record of a sorted set shows.
pub open spec fn pair_shower(score_len: u8) -> spec_fn(Record) -> (Seq<u8>, Seq<u8>) {
    |record: Record| shown_pair(record, score_len)
}

impl<S: KvStore> Database<S> {
    /// The length of the scores of the sorted set of `name`.
    fn find_score_len(&self, name: &[u8]) -> (r: Result<u8, Error>)
        ensures
            backend_fault(r) ==> !self.store.reliable(),
            !not_text(r),
            self@.inv() ==> !rejected(r),
            r matches Ok(n) ==> n == score_len_of(self@.records, name@),
    {
        match self.get_meta(name)? {
            None => Ok(0),
            Some(meta) => match meta.key_type {
                KeyType::SortedSetKey => {
                    if meta.extra.len() == 5 {
                        Ok(meta.decode_sorted_set_extra().1)
                    } else {
                        Ok(0)
                    }
                },
                _ => Ok(0),
            },
        }
    }

    /// Shows `f` the fields of the map of `key` with their values, in the
    /// order of the fields, until `f` says to stop. Hands back the number of
    /// fields shown. Fails at the first field that is not text, if the walk
    /// comes to it.
    pub fn map_for_each<F: FnMut(&str, Vec<u8>) -> bool>(
        &self,
        key: &str,
        f: F,
    ) -> (r: Result<u64, Error>)
        requires
            forall|field: &str, value: Vec<u8>| call_requires(f, (field, value)),
        ensures
            backend_fault(r) ==> !self.store.reliable(),
            self@.inv() ==> !rejected(r),
            tails_are_text(
                self@.records,
                walk_prefix(self@.records, key.spec_bytes(), None),
            ) ==> !not_text(r),
            not_text(r) ==> walk_failed_under(
                self@.records,
                walk_prefix(self@.records, key.spec_bytes(), None),
                field_answers(f),
                field_is_text(),
            ),
            r matches Ok(n) ==> walked(
                self@.records,
                walk_prefix(self@.records, key.spec_bytes(), None),
                field_answers(f),
                n,
            ),
            r is Ok && field_visitor_goes_on(f) ==> tails_are_text(
                self@.records,
                walk_prefix(self@.records, key.spec_bytes(), None),
            ),
    {
        let start = match self.find_walk_prefix(key.as_bytes(), None)? {
            None => {
                return Ok(0);
            },
            Some(start) => start,
        };
        let ghost s = self.store.contents();
        let ghost answered = field_answers(f);
        let mut visit = f;
        let mut walk = Walk::new(start.as_slice());
        loop
            invariant
                s == self.store.contents(),
                walk.inv(s, answered),
                walk.settled(answered),
                walk.cursor.prefix@ == start@,
                visit == f,
                answered == field_answers(f),
                forall|field: &str, value: Vec<u8>| call_requires(f, (field, value)),
                walk_prefix(self@.records, key.spec_bytes(), None) == Some(start@),
            decreases walk.cursor.remaining(s),
        {
            let found = match walk.next(&self.store, Ghost(answered)) {
                Ok(found) => found,
                Err(e) => {
                    return Err(Error::Backend(e));
                },
            };
            let (k, v) = match found {
                None => {
                    proof {
                        walk.cursor.lemma_inv(s);
                        assert forall|i: int| 0 <= i < walk.cursor.taken@.len() implies answered(
                            #[trigger] walk.cursor.taken@[i],
                            true,
                        ) by {}
                        lemma_shown_fields_are_text(s, start@, answered, walk.cursor.taken@);
                        walk.lemma_finished(s, answered, true);
                    }
                    return Ok(walk.count);
                },
                Some(record) => record,
            };
            proof {
                walk.cursor.lemma_inv(s);
                assert(walk.cursor.taken@.last() == (k@, v@));
                assert(s.contains_key(walk.cursor.taken@.last().0));
                assert(start@.is_prefix_of(walk.cursor.taken@.last().0));
            }
            let field = match decode_data_key_map_item(k.as_slice()) {
                Ok(field) => field,
                Err(e) => {
                    proof {
                        walk.lemma_failed(s, answered, field_is_text(), usize::MAX);
                    }
                    return Err(Error::InvalidUtf8(e));
                },
            };
            let go = visit(field.as_str(), v);
            assert(answered((k@, v@), go));
            if !go {
                proof {
                    walk.lemma_finished(s, answered, false);
                }
                return Ok(walk.count);
            }
        }
    }

    /// The fields of the map of `key` with their values, in the order of the
    /// fields.
    pub fn map_items(&self, key: &str) -> (r: Result<Vec<(String, Vec<u8>)>, Error>)
        ensures
            backend_fault(r) ==> !self.store.reliable(),
            self@.inv() ==> !rejected(r),
            tails_are_text(
                self@.records,
                walk_prefix(self@.records, key.spec_bytes(), None),
            ) ==> !not_text(r),
            r is Ok ==> tails_are_text(
                self@.records,
                walk_prefix(self@.records, key.spec_bytes(), None),
            ),
            r matches Ok(list) ==> shows(
                self@.records,
                walk_prefix(self@.records, key.spec_bytes(), None),
                field_shower(),
                fields_view(list@),
            ),
    {
        let start = match self.find_walk_prefix(key.as_bytes(), None)? {
            None => {
                return Ok(Vec::new());
            },
            Some(start) => start,
        };
        let raw = match self.collect_run(start.as_slice()) {
            Ok(raw) => raw,
            Err(e) => {
                return Err(e);
            },
        };
        let ghost s = self.store.contents();
        let ghost full = records_view(raw@);
        let ghost shown = field_shower();
        let mut list: Vec<(String, Vec<u8>)> = Vec::new();
        let mut i: usize = 0;
        while i < raw.len()
            invariant
                i <= raw@.len(),
                s == self.store.contents(),
                full == records_view(raw@),
                is_full_run(s, start@, full),
                shown == field_shower(),
                forall|j: int| 0 <= j < i ==> valid_utf8(tail_from((#[trigger] full[j]).0, 10)),
                list@.len() == i,
                forall|j: int| 0 <= j < i ==> #[trigger] fields_view(list@)[j] == shown(full[j]),
                walk_prefix(self@.records, key.spec_bytes(), None) == Some(start@),
            decreases raw@.len() - i,
        {
            let k = &raw[i].0;
            let v = &raw[i].1;
            proof {
                assert(full[i as int] == (k@, v@));
                assert(s.contains_key(full[i as int].0));
                assert(start@.is_prefix_of(full[i as int].0));
            }
            let ghost before = fields_view(list@);
            let field = match decode_data_key_map_item(k.as_slice()) {
                Ok(field) => field,
                Err(e) => {
                    return Err(Error::InvalidUtf8(e));
                },
            };
            list.push((field, slice_to_vec(v.as_slice())));
            proof {
                assert forall|j: int| 0 <= j < i + 1 implies #[trigger] fields_view(list@)[j]
                    == shown(full[j]) by {
                    if j < i {
                        assert(fields_view(list@)[j] == before[j]);
                    }
                }
            }
            i += 1;
        }
        proof {
            assert forall|k: Seq<u8>| #[trigger] s.contains_key(k) && start@.is_prefix_of(
                k,
            ) implies valid_utf8(tail_from(k, 10)) by {
                assert(crate::scan::listed(full, k));
                let j = choose|j: int| 0 <= j < full.len() && (#[trigger] full[j]).0 == k;
                assert(valid_utf8(tail_from(full[j].0, 10)));
            }
            assert(fields_view(list@) =~= full.map_values(shown));
            assert forall|other: Seq<Record>| #[trigger]
                is_full_run(s, start@, other) implies fields_view(list@) == other.map_values(
                    shown,
                ) by {
                lemma_full_run_unique(s, start@, full, other);
            }
        }
        Ok(list)
    }

    /// Shows `f` the fields of the map of `key` that start with `prefix`, as
    /// `map_for_each` does.
    pub fn map_for_each_with_prefix<F: FnMut(&str, Vec<u8>) -> bool>(
        &self,
        key: &str,
        prefix: &str,
        f: F,
    ) -> (r: Result<u64, Error>)
        requires
            forall|field: &str, value: Vec<u8>| call_requires(f, (field, value)),
        ensures
            backend_fault(r) ==> !self.store.reliable(),
            self@.inv() ==> !rejected(r),
            tails_are_text(
                self@.records,
                walk_prefix(self@.records, key.spec_bytes(), Some(prefix.spec_bytes())),
            ) ==> !not_text(r),
            not_text(r) ==> walk_failed_under(
                self@.records,
                walk_prefix(self@.records, key.spec_bytes(), Some(prefix.spec_bytes())),
                field_answers(f),
                field_is_text(),
            ),
            r matches Ok(n) ==> walked(
                self@.records,
                walk_prefix(self@.records, key.spec_bytes(), Some(prefix.spec_bytes())),
                field_answers(f),
                n,
            ),
            r is Ok && field_visitor_goes_on(f) ==> tails_are_text(
                self@.records,
                walk_prefix(self@.records, key.spec_bytes(), Some(prefix.spec_bytes())),
            ),
    {
        let start = match self.find_walk_prefix(key.as_bytes(), Some(prefix))? {
            None => {
                return Ok(0);
            },
            Some(start) => start,
        };
        let ghost s = self.store.contents();
        let ghost answered = field_answers(f);
        let mut visit = f;
        let mut walk = Walk::new(start.as_slice());
        loop
            invariant
                s == self.store.contents(),
                walk.inv(s, answered),
                walk.settled(answered),
                walk.cursor.prefix@ == start@,
                visit == f,
                answered == field_answers(f),
                forall|field: &str, value: Vec<u8>| call_requires(f, (field, value)),
                walk_prefix(self@.records, key.spec_bytes(), Some(prefix.spec_bytes())) == Some(
                    start@,
                ),
            decreases walk.cursor.remaining(s),
        {
            let found = match walk.next(&self.store, Ghost(answered)) {
                Ok(found) => found,
                Err(e) => {
                    return Err(Error::Backend(e));
                },
            };
            let (k, v) = match found {
                None => {
                    proof {
                        walk.cursor.lemma_inv(s);
                        assert forall|i: int| 0 <= i < walk.cursor.taken@.len() implies answered(
                            #[trigger] walk.cursor.taken@[i],
                            true,
                        ) by {}
                        lemma_shown_fields_are_text(s, start@, answered, walk.cursor.taken@);
                        walk.lemma_finished(s, answered, true);
                    }
                    return Ok(walk.count);
                },
                Some(record) => record,
            };
            proof {
                walk.cursor.lemma_inv(s);
                assert(walk.cursor.taken@.last() == (k@, v@));
                assert(s.contains_key(walk.cursor.taken@.last().0));
                assert(start@.is_prefix_of(walk.cursor.taken@.last().0));
            }
            let field = match decode_data_key_map_item(k.as_slice()) {
                Ok(field) => field,
                Err(e) => {
                    proof {
                        walk.lemma_failed(s, answered, field_is_text(), usize::MAX);
                    }
                    return Err(Error::InvalidUtf8(e));
                },
            };
            let go = visit(field.as_str(), v);
            assert(answered((k@, v@), go));
            if !go {
                proof {
                    walk.lemma_finished(s, answered, false);
                }
                return Ok(walk.count);
            }
        }
    }

    /// The fields of the map of `key` that start with `prefix`, with their
    /// values, in the order of the fields.
    pub fn map_items_with_prefix(&self, key: &str, prefix: &str) -> (r: Result<
        Vec<(String, Vec<u8>)>,
        Error,
    >)
        ensures
            backend_fault(r) ==> !self.store.reliable(),
            self@.inv() ==> !rejected(r),
            tails_are_text(
                self@.records,
                walk_prefix(self@.records, key.spec_bytes(), Some(prefix.spec_bytes())),
            ) ==> !not_text(r),
            r is Ok ==> tails_are_text(
                self@.records,
                walk_prefix(self@.records, key.spec_bytes(), Some(prefix.spec_bytes())),
            ),
            r matches Ok(list) ==> shows(
                self@.records,
                walk_prefix(self@.records, key.spec_bytes(), Some(prefix.spec_bytes())),
                field_shower(),
                fields_view(list@),
            ),
    {
        let start = match self.find_walk_prefix(key.as_bytes(), Some(prefix))? {
            None => {
                return Ok(Vec::new());
            },
            Some(start) => start,
        };
        let raw = match self.collect_run(start.as_slice()) {
            Ok(raw) => raw,
            Err(e) => {
                return Err(e);
            },
        };
        let ghost s = self.store.contents();
        let ghost full = records_view(raw@);
        let ghost shown = field_shower();
        let mut list: Vec<(String, Vec<u8>)> = Vec::new();
        let mut i: usize = 0;
        while i < raw.len()
            invariant
                i <= raw@.len(),
                s == self.store.contents(),
                full == records_view(raw@),
                is_full_run(s, start@, full),
                shown == field_shower(),
                forall|j: int| 0 <= j < i ==> valid_utf8(tail_from((#[trigger] full[j]).0, 10)),
                list@.len() == i,
                forall|j: int| 0 <= j < i ==> #[trigger] fields_view(list@)[j] == shown(full[j]),
                walk_prefix(self@.records, key.spec_bytes(), Some(prefix.spec_bytes())) == Some(
                    start@,
                ),
            decreases raw@.len() - i,
        {
            let k = &raw[i].0;
            let v = &raw[i].1;
            proof {
                assert(full[i as int] == (k@, v@));
                assert(s.contains_key(full[i as int].0));
                assert(start@.is_prefix_of(full[i as int].0));
            }
            let ghost before = fields_view(list@);
            let field = match decode_data_key_map_item(k.as_slice()) {
                Ok(field) => field,
                Err(e) => {
                    return Err(Error::InvalidUtf8(e));
                },
            };
            list.push((field, slice_to_vec(v.as_slice())));
            proof {
                assert forall|j: int| 0 <= j < i + 1 implies #[trigger] fields_view(list@)[j]
                    == shown(full[j]) by {
                    if j < i {
                        assert(fields_view(list@)[j] == before[j]);
                    }
                }
            }
            i += 1;
        }
        proof {
            assert forall|k: Seq<u8>| #[trigger] s.contains_key(k) && start@.is_prefix_of(
                k,
            ) implies valid_utf8(tail_from(k, 10)) by {
                assert(crate::scan::listed(full, k));
                let j = choose|j: int| 0 <= j < full.len() && (#[trigger] full[j]).0 == k;
                assert(valid_utf8(tail_from(full[j].0, 10)));
            }
            assert(fields_view(list@) =~= full.map_values(shown));
            assert forall|other: Seq<Record>| #[trigger]
                is_full_run(s, start@, other) implies fields_view(list@) == other.map_values(
                    shown,
                ) by {
                lemma_full_run_unique(s, start@, full, other);
            }
        }
        Ok(list)
    }

    /// Shows `f` the members of the set of `key`, in bytewise order, until
    /// `f` says to stop. Hands back the number of members shown.
    pub fn set_for_each<F: FnMut(Vec<u8>) -> bool>(
        &self,
        key: &str,
        f: F,
    ) -> (r: Result<u64, Error>)
        requires
            forall|member: Vec<u8>| call_requires(f, (member,)),
        ensures
            backend_fault(r) ==> !self.store.reliable(),
            self@.inv() ==> !rejected(r),
            !not_text(r),
            r matches Ok(n) ==> walked(
                self@.records,
                walk_prefix(self@.records, key.spec_bytes(), None),
                member_answers(f),
                n,
            ),
    {
        let start = match self.find_walk_prefix(key.as_bytes(), None)? {
            None => {
                return Ok(0);
            },
            Some(start) => start,
        };
        let ghost s = self.store.contents();
        let ghost answered = member_answers(f);
        let mut visit = f;
        let mut walk = Walk::new(start.as_slice());
        loop
            invariant
                s == self.store.contents(),
                walk.inv(s, answered),
                walk.settled(answered),
                walk.cursor.prefix@ == start@,
                visit == f,
                answered == member_answers(f),
                forall|member: Vec<u8>| call_requires(f, (member,)),
                walk_prefix(self@.records, key.spec_bytes(), None) == Some(start@),
            decreases walk.cursor.remaining(s),
        {
            let found = match walk.next(&self.store, Ghost(answered)) {
                Ok(found) => found,
                Err(e) => {
                    return Err(Error::Backend(e));
                },
            };
            let (k, v) = match found {
                None => {
                    proof {
                        walk.lemma_finished(s, answered, true);
                    }
                    return Ok(walk.count);
                },
                Some(record) => record,
            };
            let member = slice_to_vec(decode_data_key_set_item(k.as_slice()));
            let go = visit(member);
            assert(answered((k@, v@), go));
            if !go {
                proof {
                    walk.lemma_finished(s, answered, false);
                }
                return Ok(walk.count);
            }
        }
    }

    /// The members of the set of `key`, in bytewise order.
    pub fn set_items(&self, key: &str) -> (r: Result<Vec<Vec<u8>>, Error>)
        ensures
            backend_fault(r) ==> !self.store.reliable(),
            self@.inv() ==> !rejected(r),
            !not_text(r),
            r matches Ok(list) ==> shows(
                self@.records,
                walk_prefix(self@.records, key.spec_bytes(), None),
                member_shower(),
                values_view(list@),
            ),
    {
        let start = match self.find_walk_prefix(key.as_bytes(), None)? {
            None => {
                return Ok(Vec::new());
            },
            Some(start) => start,
        };
        let raw = match self.collect_run(start.as_slice()) {
            Ok(raw) => raw,
            Err(e) => {
                return Err(e);
            },
        };
        let ghost s = self.store.contents();
        let ghost full = records_view(raw@);
        let ghost shown = member_shower();
        let mut list: Vec<Vec<u8>> = Vec::new();
        let mut i: usize = 0;
        while i < raw.len()
            invariant
                i <= raw@.len(),
                s == self.store.contents(),
                full == records_view(raw@),
                is_full_run(s, start@, full),
                shown == member_shower(),
                list@.len() == i,
                forall|j: int| 0 <= j < i ==> #[trigger] values_view(list@)[j] == shown(full[j]),
                walk_prefix(self@.records, key.spec_bytes(), None) == Some(start@),
            decreases raw@.len() - i,
        {
            let k = &raw[i].0;
            let v = &raw[i].1;
            assert(full[i as int] == (k@, v@));
            let ghost before = values_view(list@);
            list.push(slice_to_vec(decode_data_key_set_item(k.as_slice())));
            proof {
                assert forall|j: int| 0 <= j < i + 1 implies #[trigger] values_view(list@)[j]
                    == shown(full[j]) by {
                    if j < i {
                        assert(values_view(list@)[j] == before[j]);
                    }
                }
            }
            i += 1;
        }
        proof {
            assert(values_view(list@) =~= full.map_values(shown));
            assert forall|other: Seq<Record>| #[trigger]
                is_full_run(s, start@, other) implies values_view(list@) == other.map_values(
                    shown,
                ) by {
                lemma_full_run_unique(s, start@, full, other);
            }
        }
        Ok(list)
    }

    /// Shows `f` the items of the list of `key`, from the first to the last,
    /// until `f` says to stop. Hands back the number of items shown.
    pub fn list_for_each<F: FnMut(Vec<u8>) -> bool>(
        &self,
        key: &str,
        f: F,
    ) -> (r: Result<u64, Error>)
        requires
            forall|value: Vec<u8>| call_requires(f, (value,)),
        ensures
            backend_fault(r) ==> !self.store.reliable(),
            self@.inv() ==> !rejected(r),
            !not_text(r),
            r matches Ok(n) ==> walked(
                self@.records,
                walk_prefix(self@.records, key.spec_bytes(), None),
                value_answers(f),
                n,
            ),
    {
        let start = match self.find_walk_prefix(key.as_bytes(), None)? {
            None => {
                return Ok(0);
            },
            Some(start) => start,
        };
        let ghost s = self.store.contents();
        let ghost answered = value_answers(f);
        let mut visit = f;
        let mut walk = Walk::new(start.as_slice());
        loop
            invariant
                s == self.store.contents(),
                walk.inv(s, answered),
                walk.settled(answered),
                walk.cursor.prefix@ == start@,
                visit == f,
                answered == value_answers(f),
                forall|value: Vec<u8>| call_requires(f, (value,)),
                walk_prefix(self@.records, key.spec_bytes(), None) == Some(start@),
            decreases walk.cursor.remaining(s),
        {
            let found = match walk.next(&self.store, Ghost(answered)) {
                Ok(found) => found,
                Err(e) => {
                    return Err(Error::Backend(e));
                },
            };
            let (k, v) = match found {
                None => {
                    proof {
                        walk.lemma_finished(s, answered, true);
                    }
                    return Ok(walk.count);
                },
                Some(record) => record,
            };

            let go = visit(v);
            assert(answered((k@, v@), go));
            if !go {
                proof {
                    walk.lemma_finished(s, answered, false);
                }
                return Ok(walk.count);
            }
        }
    }

    /// The items of the list of `key`, from the first to the last.
    pub fn list_items(&self, key: &str) -> (r: Result<Vec<Vec<u8>>, Error>)
        ensures
            backend_fault(r) ==> !self.store.reliable(),
            self@.inv() ==> !rejected(r),
            !not_text(r),
            r matches Ok(list) ==> shows(
                self@.records,
                walk_prefix(self@.records, key.spec_bytes(), None),
                value_shower(),
                values_view(list@),
            ),
    {
        let start = match self.find_walk_prefix(key.as_bytes(), None)? {
            None => {
                return Ok(Vec::new());
            },
            Some(start) => start,
        };
        let raw = match self.collect_run(start.as_slice()) {
            Ok(raw) => raw,
            Err(e) => {
                return Err(e);
            },
        };
        let ghost s = self.store.contents();
        let ghost full = records_view(raw@);
        let ghost shown = value_shower();
        let mut list: Vec<Vec<u8>> = Vec::new();
        let mut i: usize = 0;
        while i < raw.len()
            invariant
                i <= raw@.len(),
                s == self.store.contents(),
                full == records_view(raw@),
                is_full_run(s, start@, full),
                shown == value_shower(),
                list@.len() == i,
                forall|j: int| 0 <= j < i ==> #[trigger] values_view(list@)[j] == shown(full[j]),
                walk_prefix(self@.records, key.spec_bytes(), None) == Some(start@),
            decreases raw@.len() - i,
        {
            let k = &raw[i].0;
            let v = &raw[i].1;
            assert(full[i as int] == (k@, v@));
            let ghost before = values_view(list@);
            list.push(slice_to_vec(v.as_slice()));
            proof {
                assert forall|j: int| 0 <= j < i + 1 implies #[trigger] values_view(list@)[j]
                    == shown(full[j]) by {
                    if j < i {
                        assert(values_view(list@)[j] == before[j]);
                    }
                }
            }
            i += 1;
        }
        proof {
            assert(values_view(list@) =~= full.map_values(shown));
            assert forall|other: Seq<Record>| #[trigger]
                is_full_run(s, start@, other) implies values_view(list@) == other.map_values(
                    shown,
                ) by {
                lemma_full_run_unique(s, start@, full, other);
            }
        }
        Ok(list)
    }

    /// Shows `f` the items of the sorted list of `key` with their scores, in
    /// the order of the keys, until `f` says to stop. Hands back the number
    /// of items shown.
    pub fn sorted_list_for_each<F: FnMut((Vec<u8>, Vec<u8>)) -> bool>(
        &self,
        key: &str,
        f: F,
    ) -> (r: Result<u64, Error>)
        requires
            forall|item: (Vec<u8>, Vec<u8>)| call_requires(f, (item,)),
        ensures
            backend_fault(r) ==> !self.store.reliable(),
            self@.inv() ==> !rejected(r),
            !not_text(r),
            r matches Ok(n) ==> walked(
                self@.records,
                walk_prefix(self@.records, key.spec_bytes(), None),
                scored_answers(f),
                n,
            ),
    {
        let start = match self.find_walk_prefix(key.as_bytes(), None)? {
            None => {
                return Ok(0);
            },
            Some(start) => start,
        };
        let ghost s = self.store.contents();
        let ghost answered = scored_answers(f);
        let mut visit = f;
        let mut walk = Walk::new(start.as_slice());
        loop
            invariant
                s == self.store.contents(),
                walk.inv(s, answered),
                walk.settled(answered),
                walk.cursor.prefix@ == start@,
                visit == f,
                answered == scored_answers(f),
                forall|item: (Vec<u8>, Vec<u8>)| call_requires(f, (item,)),
                walk_prefix(self@.records, key.spec_bytes(), None) == Some(start@),
            decreases walk.cursor.remaining(s),
        {
            let found = match walk.next(&self.store, Ghost(answered)) {
                Ok(found) => found,
                Err(e) => {
                    return Err(Error::Backend(e));
                },
            };
            let (k, v) = match found {
                None => {
                    proof {
                        walk.lemma_finished(s, answered, true);
                    }
                    return Ok(walk.count);
                },
                Some(record) => record,
            };
            let score = slice_to_vec(decode_data_key_sorted_list_item(k.as_slice()));
            let item = (score, v);
            let ghost handed = item;
            assert((handed.0@, handed.1@) == shown_scored((k@, v@)));
            let go = visit(item);
            assert(answered((k@, v@), go));
            if !go {
                proof {
                    walk.lemma_finished(s, answered, false);
                }
                return Ok(walk.count);
            }
        }
    }

    /// The items of the sorted list of `key` with their scores, in the order
    /// of the keys.
    pub fn sorted_list_items(&self, key: &str) -> (r: Result<Vec<(Vec<u8>, Vec<u8>)>, Error>)
        ensures
            backend_fault(r) ==> !self.store.reliable(),
            self@.inv() ==> !rejected(r),
            !not_text(r),
            r matches Ok(list) ==> shows(
                self@.records,
                walk_prefix(self@.records, key.spec_bytes(), None),
                scored_shower(),
                records_view(list@),
            ),
    {
        let start = match self.find_walk_prefix(key.as_bytes(), None)? {
            None => {
                return Ok(Vec::new());
            },
            Some(start) => start,
        };
        let raw = match self.collect_run(start.as_slice()) {
            Ok(raw) => raw,
            Err(e) => {
                return Err(e);
            },
        };
        let ghost s = self.store.contents();
        let ghost full = records_view(raw@);
        let ghost shown = scored_shower();
        let mut list: Vec<(Vec<u8>, Vec<u8>)> = Vec::new();
        let mut i: usize = 0;
        while i < raw.len()
            invariant
                i <= raw@.len(),
                s == self.store.contents(),
                full == records_view(raw@),
                is_full_run(s, start@, full),
                shown == scored_shower(),
                list@.len() == i,
                forall|j: int| 0 <= j < i ==> #[trigger] records_view(list@)[j] == shown(full[j]),
                walk_prefix(self@.records, key.spec_bytes(), None) == Some(start@),
            decreases raw@.len() - i,
        {
            let k = &raw[i].0;
            let v = &raw[i].1;
            assert(full[i as int] == (k@, v@));
            let ghost before = records_view(list@);
            list.push(
                (
                    slice_to_vec(decode_data_key_sorted_list_item(k.as_slice())),
                    slice_to_vec(v.as_slice()),
                ),
            );
            proof {
                assert forall|j: int| 0 <= j < i + 1 implies #[trigger] records_view(list@)[j]
                    == shown(full[j]) by {
                    if j < i {
                        assert(records_view(list@)[j] == before[j]);
                    }
                }
            }
            i += 1;
        }
        proof {
            assert(records_view(list@) =~= full.map_values(shown));
            assert forall|other: Seq<Record>| #[trigger]
                is_full_run(s, start@, other) implies records_view(list@) == other.map_values(
                    shown,
                ) by {
                lemma_full_run_unique(s, start@, full, other);
            }
        }
        Ok(list)
    }

    /// Shows `f` the members of the sorted set of `key` with their scores, in
    /// the order of the scores, until `f` says to stop. Hands back the
    /// number of members shown.
    pub fn sorted_set_for_each<F: FnMut((Vec<u8>, Vec<u8>)) -> bool>(
        &self,
        key: &str,
        f: F,
    ) -> (r: Result<u64, Error>)
        requires
            forall|item: (Vec<u8>, Vec<u8>)| call_requires(f, (item,)),
        ensures
            backend_fault(r) ==> !self.store.reliable(),
            self@.inv() ==> !rejected(r),
            !not_text(r),
            r matches Ok(n) ==> walked(
                self@.records,
                walk_prefix(self@.records, key.spec_bytes(), None),
                pair_answers(f, score_len_of(self@.records, key.spec_bytes())),
                n,
            ),
    {
        let score_len = self.find_score_len(key.as_bytes())?;
        let start = match self.find_walk_prefix(key.as_bytes(), None)? {
            None => {
                return Ok(0);
            },
            Some(start) => start,
        };
        let ghost s = self.store.contents();
        let ghost answered = pair_answers(f, score_len);
        let mut visit = f;
        let mut walk = Walk::new(start.as_slice());
        loop
            invariant
                s == self.store.contents(),
                walk.inv(s, answered),
                walk.settled(answered),
                walk.cursor.prefix@ == start@,
                visit == f,
                answered == pair_answers(f, score_len),
                score_len == score_len_of(self@.records, key.spec_bytes()),
                forall|item: (Vec<u8>, Vec<u8>)| call_requires(f, (item,)),
                walk_prefix(self@.records, key.spec_bytes(), None) == Some(start@),
            decreases walk.cursor.remaining(s),
        {
            let found = match walk.next(&self.store, Ghost(answered)) {
                Ok(found) => found,
                Err(e) => {
                    return Err(Error::Backend(e));
                },
            };
            let (k, v) = match found {
                None => {
                    proof {
                        walk.lemma_finished(s, answered, true);
                    }
                    return Ok(walk.count);
                },
                Some(record) => record,
            };
            let item = decode_data_key_sorted_set_item_with_score(k.as_slice(), score_len);
            let go = visit(item);
            assert(answered((k@, v@), go));
            if !go {
                proof {
                    walk.lemma_finished(s, answered, false);
                }
                return Ok(walk.count);
            }
        }
    }

    /// The members of the sorted set of `key` with their scores, in the order
    /// of the scores.
    pub fn sorted_set_items(&self, key: &str) -> (r: Result<Vec<(Vec<u8>, Vec<u8>)>, Error>)
        ensures
            backend_fault(r) ==> !self.store.reliable(),
            self@.inv() ==> !rejected(r),
            !not_text(r),
            r matches Ok(list) ==> shows(
                self@.records,
                walk_prefix(self@.records, key.spec_bytes(), None),
                pair_shower(score_len_of(self@.records, key.spec_bytes())),
                records_view(list@),
            ),
    {
        let score_len = self.find_score_len(key.as_bytes())?;
        let start = match self.find_walk_prefix(key.as_bytes(), None)? {
            None => {
                return Ok(Vec::new());
            },
            Some(start) => start,
        };
        let raw = match self.collect_run(start.as_slice()) {
            Ok(raw) => raw,
            Err(e) => {
                return Err(e);
            },
        };
        let ghost s = self.store.contents();
        let ghost full = records_view(raw@);
        let ghost shown = pair_shower(score_len);
        let mut list: Vec<(Vec<u8>, Vec<u8>)> = Vec::new();
        let mut i: usize = 0;
        while i < raw.len()
            invariant
                i <= raw@.len(),
                s == self.store.contents(),
                full == records_view(raw@),
                is_full_run(s, start@, full),
                shown == pair_shower(score_len),
                score_len == score_len_of(self@.records, key.spec_bytes()),
                list@.len() == i,
                forall|j: int| 0 <= j < i ==> #[trigger] records_view(list@)[j] == shown(full[j]),
                walk_prefix(self@.records, key.spec_bytes(), None) == Some(start@),
            decreases raw@.len() - i,
        {
            let k = &raw[i].0;
            let v = &raw[i].1;
            assert(full[i as int] == (k@, v@));
            let ghost before = records_view(list@);
            list.push(decode_data_key_sorted_set_item_with_score(k.as_slice(), score_len));
            proof {
                assert forall|j: int| 0 <= j < i + 1 implies #[trigger] records_view(list@)[j]
                    == shown(full[j]) by {
                    if j < i {
                        assert(records_view(list@)[j] == before[j]);
                    }
                }
            }
            i += 1;
        }
        proof {
            assert(records_view(list@) =~= full.map_values(shown));
            assert forall|other: Seq<Record>| #[trigger]
                is_full_run(s, start@, other) implies records_view(list@) == other.map_values(
                    shown,
                ) by {
                lemma_full_run_unique(s, start@, full, other);
            }
        }
        Ok(list)
    }
}

} // verus!
