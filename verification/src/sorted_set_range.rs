//! Reading a sorted set from either end, in the order of the scores.

use vstd::prelude::*;
use vstd::string::StringSliceAdditionalSpecFns;
use crate::codec::{
    data_prefix, decode_data_key_sorted_set_item_with_score, encode_data_key_sorted_set_prefix,
    encode_data_key_sorted_set_reverse_prefix, meta_key, sorted_set_forward_key, sorted_set_pair_of,
    sorted_set_prefix, sorted_set_reverse_prefix,
};
use crate::database::Database;
use crate::error::{backend_fault, not_text, rejected, Error};
use crate::lex::{
    compare_score_bytes, lemma_between_prefix, lemma_lex_append, lemma_lex_asymmetric,
    lemma_lex_concat, lemma_lex_extend, lemma_lex_extend_apart, lemma_lex_irreflexive,
    lemma_lex_total, lemma_lex_transitive, lex_le, lex_lt,
};
use crate::meta::{KeyType, MetaView};
use crate::model::{collection, lemma_data_prefix, meta_at, store_inv};
use crate::scan::{
    is_back_run, is_full_back_run, is_full_run, is_range_end, is_run, lemma_back_run_drop_last,
    lemma_run_drop_last, listed, records_view, BackCursor, Cursor,
};
use crate::sorted_list::bound_view;
use crate::store::{Contents, KvStore, Record};

verus! {

/// A score and a member.
pub type Scored = (Seq<u8>, Seq<u8>);

/// `score` is not above the bound, if there is one.
pub open spec fn not_above(max: Option<Seq<u8>>, score: Seq<u8>) -> bool {
    match max {
        Some(max) => !lex_lt(max, score),
        None => true,
    }
}

/// `score` is not below the bound, if there is one.
pub open spec fn not_below(min: Option<Seq<u8>>, score: Seq<u8>) -> bool {
    match min {
        Some(min) => !lex_lt(score, min),
        None => true,
    }
}

/// The forward records of the members in `out`, as the store `s` holds them.
pub open spec fn forward_records(s: Contents, id: u64, out: Seq<Scored>) -> Seq<Record> {
    Seq::new(
        out.len(),
        |i: int|
            (
                sorted_set_forward_key(id, out[i].0, out[i].1),
                s[sorted_set_forward_key(id, out[i].0, out[i].1)],
            ),
    )
}

/// The pair is what is read off its own forward key for scores of
/// `score_len` bytes: the score is the first `score_len` bytes after the tag
/// and the member the rest, or the score is all there is when that is less.
pub open spec fn is_decoded(id: u64, score_len: u8, pair: Scored) -> bool {
    pair == sorted_set_pair_of(sorted_set_forward_key(id, pair.0, pair.1), score_len)
}

/// `out` is what reading the sorted set with record `m` from the left gives:
/// what is read off its first forward keys, in the order of the keys, for
/// scores of the stored length; none with a score above `max`, at most
/// `limit` of them, and all with a score not above `max` when they are fewer
/// than `limit`.
pub open spec fn is_sorted_set_left(
    s: Contents,
    m: MetaView,
    max: Option<Seq<u8>>,
    limit: usize,
    out: Seq<Scored>,
) -> bool {
    &&& out.len() <= limit
    &&& is_run(s, sorted_set_prefix(m.id), forward_records(s, m.id, out))
    &&& forall|i: int|
        0 <= i < out.len() ==> is_decoded(m.id, m.score_len(), #[trigger] out[i]) && not_above(
            max,
            out[i].0,
        )
    &&& out.len() < limit ==> forall|x: Seq<u8>| #[trigger]
        s.contains_key(x) && sorted_set_prefix(m.id).is_prefix_of(x) && not_above(
            max,
            sorted_set_pair_of(x, m.score_len()).0,
        ) ==> listed(forward_records(s, m.id, out), x)
}

/// `out` holds the scores and members read off the keys of the first
/// records of `taken`, none with a score above `max`.
pub open spec fn gathered(
    out: Seq<Scored>,
    taken: Seq<Record>,
    score_len: u8,
    max: Option<Seq<u8>>,
) -> bool {
    forall|i: int|
        0 <= i < out.len() ==> #[trigger] out[i] == sorted_set_pair_of(taken[i].0, score_len)
            && not_above(max, out[i].0)
}

/// `out` is what reading the sorted set with record `m` from the right
/// gives: what is read off its last forward keys, in the descending order
/// of the keys, for scores of the stored length; none with a score below
/// `min`, at most `limit` of them, and all with a score not below `min` when
/// they are fewer than `limit`.
pub open spec fn is_sorted_set_right(
    s: Contents,
    m: MetaView,
    min: Option<Seq<u8>>,
    limit: usize,
    out: Seq<Scored>,
) -> bool {
    &&& out.len() <= limit
    &&& is_back_run(s, sorted_set_prefix(m.id), forward_records(s, m.id, out))
    &&& forall|i: int|
        0 <= i < out.len() ==> is_decoded(m.id, m.score_len(), #[trigger] out[i]) && not_below(
            min,
            out[i].0,
        )
    &&& out.len() < limit ==> forall|x: Seq<u8>| #[trigger]
        s.contains_key(x) && sorted_set_prefix(m.id).is_prefix_of(x) && not_below(
            min,
            sorted_set_pair_of(x, m.score_len()).0,
        ) ==> listed(forward_records(s, m.id, out), x)
}

/// `out` holds the scores and members read off the keys of the first
/// records of `taken`, none with a score below `min`.
pub open spec fn gathered_back(
    out: Seq<Scored>,
    taken: Seq<Record>,
    score_len: u8,
    min: Option<Seq<u8>>,
) -> bool {
    forall|i: int|
        0 <= i < out.len() ==> #[trigger] out[i] == sorted_set_pair_of(taken[i].0, score_len)
            && not_below(min, out[i].0)
}

/// The prefix of the reverse records closes the range of the forward
/// records.
pub proof fn lemma_forward_range_end(id: u64)
    ensures
        is_range_end(sorted_set_prefix(id), sorted_set_reverse_prefix(id)),
{
    let base = data_prefix(id);
    let p = sorted_set_prefix(id);
    let end = sorted_set_reverse_prefix(id);
    let zero = seq![0u8];
    let one = seq![1u8];
    assert(p =~= base + zero);
    assert(end =~= base + one);
    assert(base.is_prefix_of(p)) by {
        assert(p.subrange(0, base.len() as int) =~= base);
    }
    assert(base.is_prefix_of(end)) by {
        assert(end.subrange(0, base.len() as int) =~= base);
    }
    lemma_data_prefix(id);
    assert forall|x: Seq<u8>| #[trigger] p.is_prefix_of(x) implies lex_lt(x, end) by {
        let t = x.subrange(11, x.len() as int);
        assert(x.subrange(0, 11) == p);
        assert forall|i: int| 0 <= i < 11 implies x[i] == p[i] by {
            assert(x.subrange(0, 11)[i] == x[i]);
        }
        assert(x =~= base + (zero + t));
        lemma_lex_concat(base, zero + t, one);
        assert((zero + t)[0] == 0u8);
    }
    assert forall|k: Seq<u8>| lex_le(p, k) && #[trigger] lex_lt(k, end) implies p.is_prefix_of(
        k,
    ) by {
        lemma_between_prefix(base, p, k, end);
        let t = k.subrange(10, k.len() as int);
        assert(k =~= base + t);
        lemma_lex_concat(base, t, one);
        lemma_lex_concat(base, zero, t);
        assert(lex_lt(t, one));
        assert(zero == t || lex_lt(zero, t)) by {
            if p == k {
                assert(t =~= zero);
            }
        }
        assert(t.len() > 0);
        if t[0] != 0u8 {
            assert(one[0] == 1u8);
            assert(t[0] == 1u8);
            assert(one.drop_first() =~= Seq::<u8>::empty());
            assert(!lex_lt(t.drop_first(), one.drop_first()));
        }
        assert forall|i: int| 0 <= i < 11 implies k[i] == p[i] by {
            if i < 10 {
                assert(k[i] == base[i]);
            }
        }
        assert(k.subrange(0, 11) =~= p);
    }
}

/// What a walk from the right has gathered is what reading from the right
/// gives, once it stopped for one of the three reasons to stop.
proof fn lemma_right_result(
    s: Contents,
    next_id: u64,
    name: Seq<u8>,
    min: Option<Seq<u8>>,
    limit: usize,
    out: Seq<Scored>,
    taken: Seq<Record>,
)
    requires
        store_inv(s, next_id),
        meta_at(s, name) is Some,
        s.contains_key(meta_key(name)),
        meta_at(s, name).unwrap().key_type == KeyType::SortedSetKey,
        is_back_run(s, sorted_set_prefix(meta_at(s, name).unwrap().id), taken),
        out.len() <= limit,
        out.len() == taken.len() || out.len() + 1 == taken.len(),
        gathered_back(out, taken, meta_at(s, name).unwrap().score_len(), min),
        out.len() == taken.len() ==> out.len() == limit || is_full_back_run(
            s,
            sorted_set_prefix(meta_at(s, name).unwrap().id),
            taken,
        ),
        out.len() + 1 == taken.len() ==> !not_below(
            min,
            sorted_set_pair_of(taken.last().0, meta_at(s, name).unwrap().score_len()).0,
        ),
    ensures
        is_sorted_set_right(s, meta_at(s, name).unwrap(), min, limit, out),
{
    let m = meta_at(s, name).unwrap();
    let p = sorted_set_prefix(m.id);
    let run = forward_records(s, m.id, out);
    let head = if out.len() == taken.len() {
        taken
    } else {
        taken.drop_last()
    };
    if out.len() != taken.len() {
        lemma_back_run_drop_last(s, p, taken);
    }
    assert forall|i: int| 0 <= i < out.len() implies run[i] == head[i] && is_decoded(
        m.id,
        m.score_len(),
        #[trigger] out[i],
    ) by {
        assert(head[i] == taken[i]);
        assert(s.contains_key(taken[i].0));
        lemma_forward_key_decoded(m.id, m.score_len(), taken[i].0);
    }
    assert(run =~= head);
    if out.len() < limit {
        assert forall|x: Seq<u8>| #[trigger]
            s.contains_key(x) && p.is_prefix_of(x) && not_below(
                min,
                sorted_set_pair_of(x, m.score_len()).0,
            ) implies listed(run, x) by {
            if out.len() + 1 == taken.len() {
                let k = taken.last().0;
                assert(s.contains_key(taken[taken.len() - 1].0));
                lemma_forward_key_decoded(m.id, m.score_len(), k);
                lemma_forward_key_decoded(m.id, m.score_len(), x);
                let a = sorted_set_pair_of(x, m.score_len());
                let b = sorted_set_pair_of(k, m.score_len());
                let bottom = min.unwrap();
                // The score of `x` is above that of `k`, so `x` comes after `k`.
                lemma_lex_total(a.0, bottom);
                if a.0 != bottom {
                    lemma_lex_transitive(b.0, bottom, a.0);
                }
                lemma_score_order(m.id, m.score_len(), b, a);
                lemma_lex_asymmetric(k, x);
                lemma_lex_irreflexive(x);
                if listed(taken, x) {
                    let i = choose|i: int| 0 <= i < taken.len() && (#[trigger] taken[i]).0 == x;
                    assert(head[i].0 == x);
                } else {
                    assert(lex_lt(x, taken[taken.len() - 1].0));
                }
            }
        }
    }
}

/// Of two pairs read off forward keys of one set, the one with the smaller
/// score has the smaller key.
pub proof fn lemma_score_order(id: u64, score_len: u8, a: Scored, b: Scored)
    requires
        is_decoded(id, score_len, a),
        is_decoded(id, score_len, b),
        lex_lt(a.0, b.0),
    ensures
        lex_lt(sorted_set_forward_key(id, a.0, a.1), sorted_set_forward_key(id, b.0, b.1)),
{
    let p = sorted_set_prefix(id);
    let ka = sorted_set_forward_key(id, a.0, a.1);
    let kb = sorted_set_forward_key(id, b.0, b.1);
    lemma_data_prefix(id);
    assert(p + (a.0 + a.1) =~= ka);
    assert(p + (b.0 + b.1) =~= kb);
    lemma_lex_concat(p, a.0 + a.1, b.0 + b.1);
    if a.0.len() == b.0.len() {
        lemma_lex_extend(a.0, b.0, a.1, b.1);
    } else if a.0.len() < score_len {
        // All of the first key after the tag is its score.
        assert(a.1.len() == 0);
        assert(a.0 + a.1 =~= a.0);
        lemma_lex_append(a.0, b.0, b.1);
    } else {
        // The first score has the full length and the second has not, so the
        // first is no beginning of the second.
        assert(b.1.len() == 0);
        assert(b.0 + b.1 =~= b.0);
        lemma_lex_extend_apart(a.0, b.0, a.1, b.1);
    }
}

/// A key under the prefix of a sorted set's forward records is the forward
/// key of the pair that is read off it.
pub proof fn lemma_forward_key_decoded(id: u64, score_len: u8, k: Seq<u8>)
    requires
        sorted_set_prefix(id).is_prefix_of(k),
    ensures
        k == sorted_set_forward_key(
            id,
            sorted_set_pair_of(k, score_len).0,
            sorted_set_pair_of(k, score_len).1,
        ),
        is_decoded(id, score_len, sorted_set_pair_of(k, score_len)),
{
    let p = sorted_set_prefix(id);
    let pair = sorted_set_pair_of(k, score_len);
    lemma_data_prefix(id);
    assert(p.len() == 11);
    assert(k.subrange(0, 11) == p);
    assert(k =~= p + pair.0 + pair.1);
}

/// What a walk from the left has gathered is what reading from the left
/// gives, once it stopped for one of the three reasons to stop.
proof fn lemma_left_result(
    s: Contents,
    next_id: u64,
    name: Seq<u8>,
    max: Option<Seq<u8>>,
    limit: usize,
    out: Seq<Scored>,
    taken: Seq<Record>,
)
    requires
        store_inv(s, next_id),
        meta_at(s, name) is Some,
        s.contains_key(meta_key(name)),
        meta_at(s, name).unwrap().key_type == KeyType::SortedSetKey,
        is_run(s, sorted_set_prefix(meta_at(s, name).unwrap().id), taken),
        out.len() <= limit,
        out.len() == taken.len() || out.len() + 1 == taken.len(),
        gathered(out, taken, meta_at(s, name).unwrap().score_len(), max),
        out.len() == taken.len() ==> out.len() == limit || is_full_run(
            s,
            sorted_set_prefix(meta_at(s, name).unwrap().id),
            taken,
        ),
        out.len() + 1 == taken.len() ==> !not_above(
            max,
            sorted_set_pair_of(taken.last().0, meta_at(s, name).unwrap().score_len()).0,
        ),
    ensures
        is_sorted_set_left(s, meta_at(s, name).unwrap(), max, limit, out),
{
    let m = meta_at(s, name).unwrap();
    let p = sorted_set_prefix(m.id);
    let run = forward_records(s, m.id, out);
    let head = if out.len() == taken.len() {
        taken
    } else {
        taken.drop_last()
    };
    if out.len() != taken.len() {
        lemma_run_drop_last(s, p, taken);
    }
    assert forall|i: int| 0 <= i < out.len() implies run[i] == head[i] && is_decoded(
        m.id,
        m.score_len(),
        #[trigger] out[i],
    ) by {
        assert(head[i] == taken[i]);
        assert(s.contains_key(taken[i].0));
        lemma_forward_key_decoded(m.id, m.score_len(), taken[i].0);
    }
    assert(run =~= head);
    if out.len() < limit {
        assert forall|x: Seq<u8>| #[trigger]
            s.contains_key(x) && p.is_prefix_of(x) && not_above(
                max,
                sorted_set_pair_of(x, m.score_len()).0,
            ) implies listed(run, x) by {
            if out.len() + 1 == taken.len() {
                let k = taken.last().0;
                assert(s.contains_key(taken[taken.len() - 1].0));
                lemma_forward_key_decoded(m.id, m.score_len(), k);
                lemma_forward_key_decoded(m.id, m.score_len(), x);
                let a = sorted_set_pair_of(x, m.score_len());
                let b = sorted_set_pair_of(k, m.score_len());
                let top = max.unwrap();
                // The score of `x` is below that of `k`, so `x` comes before `k`.
                lemma_lex_total(a.0, top);
                if a.0 != top {
                    lemma_lex_transitive(a.0, top, b.0);
                }
                lemma_score_order(m.id, m.score_len(), a, b);
                lemma_lex_asymmetric(x, k);
                lemma_lex_irreflexive(x);
                if listed(taken, x) {
                    let i = choose|i: int| 0 <= i < taken.len() && (#[trigger] taken[i]).0 == x;
                    assert(head[i].0 == x);
                } else {
                    assert(lex_lt(taken[taken.len() - 1].0, x));
                }
            }
        }
    }
}

impl<S: KvStore> Database<S> {
    /// The members of the sorted set of `key` from the least score up, with
    /// their scores: those with a score not above `max_score`, `limit` of
    /// them at most.
    pub fn sorted_set_left(&self, key: &str, max_score: Option<&[u8]>, limit: usize) -> (r: Result<
        Vec<(Vec<u8>, Vec<u8>)>,
        Error,
    >)
        ensures
            backend_fault(r) ==> !self.store.reliable(),
            !not_text(r),
            self@.inv() && !backend_fault(r) ==> match meta_at(self@.records, key.spec_bytes()) {
                None => r matches Ok(list) && list@.len() == 0,
                Some(m) => if m.key_type != KeyType::SortedSetKey {
                    rejected(r)
                } else {
                    r matches Ok(list) && is_sorted_set_left(
                        self@.records,
                        m,
                        bound_view(max_score),
                        limit,
                        records_view(list@),
                    )
                },
            },
    {
        let name = key.as_bytes();
        let meta = match self.get_meta(name)? {
            None => {
                return Ok(Vec::new());
            },
            Some(meta) => meta,
        };
        match meta.key_type {
            KeyType::SortedSetKey => {},
            _ => {
                return Err(Error::message("the key holds a collection of another type"));
            },
        }
        let (_, score_len) = meta.decode_sorted_set_extra();
        let prefix = encode_data_key_sorted_set_prefix(meta.id);
        let ghost s = self.store.contents();
        let ghost m = meta@;
        let ghost max = bound_view(max_score);
        let ghost next_id = self.next_key_id;
        let mut cursor = Cursor::new(prefix.as_slice());
        let mut list: Vec<(Vec<u8>, Vec<u8>)> = Vec::new();
        let ghost out: Seq<Scored> = Seq::empty();
        assert(records_view(list@) =~= out);
        loop
            invariant
                s == self.store.contents(),
                next_id == self.next_key_id,
                name@ == key.spec_bytes(),
                meta_at(s, name@) == Some(m),
                s.contains_key(meta_key(name@)),
                m.key_type == KeyType::SortedSetKey,
                score_len == m.score_len(),
                max == bound_view(max_score),
                cursor.inv(s),
                cursor.prefix@ == sorted_set_prefix(m.id),
                records_view(list@) == out,
                out.len() == cursor.taken@.len(),
                out.len() <= limit,
                gathered(out, cursor.taken@, score_len, max),
            decreases cursor.remaining(s),
        {
            if list.len() >= limit {
                proof {
                    cursor.lemma_inv(s);
                    if store_inv(s, next_id) {
                        lemma_left_result(s, next_id, name@, max, limit, out, cursor.taken@);
                    }
                }
                return Ok(list);
            }
            let ghost taken = cursor.taken@;
            let found = match cursor.next(&self.store) {
                Ok(found) => found,
                Err(e) => {
                    return Err(Error::Backend(e));
                },
            };
            proof {
                cursor.lemma_inv(s);
            }
            let k = match found {
                None => {
                    proof {
                        if store_inv(s, next_id) {
                            lemma_left_result(s, next_id, name@, max, limit, out, cursor.taken@);
                        }
                    }
                    return Ok(list);
                },
                Some(record) => record.0,
            };
            let (score, value) = decode_data_key_sorted_set_item_with_score(
                k.as_slice(),
                score_len,
            );
            let above = match max_score {
                Some(top) => compare_score_bytes(score.as_slice(), top) > 0,
                None => false,
            };
            proof {
                assert forall|i: int| 0 <= i < out.len() implies cursor.taken@[i] == taken[i] by {}
            }
            if above {
                proof {
                    if store_inv(s, next_id) {
                        lemma_left_result(s, next_id, name@, max, limit, out, cursor.taken@);
                    }
                }
                return Ok(list);
            }
            proof {
                out = out.push((score@, value@));
            }
            list.push((score, value));
            assert(records_view(list@) =~= out);
        }
    }

    /// The members of the sorted set of `key` from the greatest score down,
    /// with their scores: those with a score not below `min_score`, `limit`
    /// of them at most.
    pub fn sorted_set_right(&self, key: &str, min_score: Option<&[u8]>, limit: usize) -> (r: Result<
        Vec<(Vec<u8>, Vec<u8>)>,
        Error,
    >)
        ensures
            backend_fault(r) ==> !self.store.reliable(),
            !not_text(r),
            self@.inv() && !backend_fault(r) ==> match meta_at(self@.records, key.spec_bytes()) {
                None => r matches Ok(list) && list@.len() == 0,
                Some(m) => if m.key_type != KeyType::SortedSetKey {
                    rejected(r)
                } else {
                    r matches Ok(list) && is_sorted_set_right(
                        self@.records,
                        m,
                        bound_view(min_score),
                        limit,
                        records_view(list@),
                    )
                },
            },
    {
        let name = key.as_bytes();
        let meta = match self.get_meta(name)? {
            None => {
                return Ok(Vec::new());
            },
            Some(meta) => meta,
        };
        match meta.key_type {
            KeyType::SortedSetKey => {},
            _ => {
                return Err(Error::message("the key holds a collection of another type"));
            },
        }
        let (_, score_len) = meta.decode_sorted_set_extra();
        let prefix = encode_data_key_sorted_set_prefix(meta.id);
        let end = encode_data_key_sorted_set_reverse_prefix(meta.id);
        let ghost s = self.store.contents();
        let ghost m = meta@;
        let ghost min = bound_view(min_score);
        let ghost next_id = self.next_key_id;
        proof {
            lemma_forward_range_end(m.id);
        }
        let mut cursor = BackCursor::new(prefix.as_slice(), end.as_slice());
        let mut list: Vec<(Vec<u8>, Vec<u8>)> = Vec::new();
        let ghost out: Seq<Scored> = Seq::empty();
        assert(records_view(list@) =~= out);
        loop
            invariant
                s == self.store.contents(),
                next_id == self.next_key_id,
                name@ == key.spec_bytes(),
                meta_at(s, name@) == Some(m),
                s.contains_key(meta_key(name@)),
                m.key_type == KeyType::SortedSetKey,
                score_len == m.score_len(),
                min == bound_view(min_score),
                cursor.inv(s),
                cursor.prefix@ == sorted_set_prefix(m.id),
                records_view(list@) == out,
                out.len() == cursor.taken@.len(),
                out.len() <= limit,
                gathered_back(out, cursor.taken@, score_len, min),
            decreases cursor.remaining(s),
        {
            if list.len() >= limit {
                proof {
                    cursor.lemma_inv(s);
                    if store_inv(s, next_id) {
                        lemma_right_result(s, next_id, name@, min, limit, out, cursor.taken@);
                    }
                }
                return Ok(list);
            }
            let ghost taken = cursor.taken@;
            let found = match cursor.next(&self.store) {
                Ok(found) => found,
                Err(e) => {
                    return Err(Error::Backend(e));
                },
            };
            proof {
                cursor.lemma_inv(s);
            }
            let k = match found {
                None => {
                    proof {
                        if store_inv(s, next_id) {
                            lemma_right_result(s, next_id, name@, min, limit, out, cursor.taken@);
                        }
                    }
                    return Ok(list);
                },
                Some(record) => record.0,
            };
            let (score, value) = decode_data_key_sorted_set_item_with_score(
                k.as_slice(),
                score_len,
            );
            let below = match min_score {
                Some(bottom) => compare_score_bytes(score.as_slice(), bottom) < 0,
                None => false,
            };
            proof {
                assert forall|i: int| 0 <= i < out.len() implies cursor.taken@[i] == taken[i] by {}
            }
            if below {
                proof {
                    if store_inv(s, next_id) {
                        lemma_right_result(s, next_id, name@, min, limit, out, cursor.taken@);
                    }
                }
                return Ok(list);
            }
            proof {
                out = out.push((score@, value@));
            }
            list.push((score, value));
            assert(records_view(list@) =~= out);
        }
    }
}

} // verus!
