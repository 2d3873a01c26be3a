//! Walking the records whose keys share a prefix, in the order of the keys.

use vstd::prelude::*;
use vstd::slice::slice_to_vec;
use crate::lex::{
    has_prefix, lemma_lex_asymmetric, lemma_lex_irreflexive, lemma_lex_le_lt, lemma_lex_transitive,
    lemma_past_prefix, lemma_prefix_le, lex_le, lex_lt,
};
use crate::store::{Contents, KvStore, Record, StoreError};

verus! {

/// `x` is one of the keys of `out`.
pub open spec fn listed(out: Seq<Record>, x: Seq<u8>) -> bool {
    exists|i: int| 0 <= i < out.len() && (#[trigger] out[i]).0 == x
}

/// `x` sorts after every key of `out`.
pub open spec fn after_all(out: Seq<Record>, x: Seq<u8>) -> bool {
    forall|i: int| 0 <= i < out.len() ==> lex_lt((#[trigger] out[i]).0, x)
}

/// `out` holds records of `s` whose keys start with `p`, in ascending order
/// of the keys, and skips none: every such record of `s` is in `out` or
/// comes after all of `out`.
pub open spec fn is_run(s: Contents, p: Seq<u8>, out: Seq<Record>) -> bool {
    &&& forall|i: int|
        0 <= i < out.len() ==> s.contains_key((#[trigger] out[i]).0) && s[out[i].0] == out[i].1
            && p.is_prefix_of(out[i].0)
    &&& forall|i: int, j: int|
        0 <= i < j < out.len() ==> lex_lt((#[trigger] out[i]).0, (#[trigger] out[j]).0)
    &&& forall|x: Seq<u8>| #[trigger]
        s.contains_key(x) && p.is_prefix_of(x) ==> listed(out, x) || after_all(out, x)
}

/// `out` holds all records of `s` whose keys start with `p`, in ascending
/// order of the keys.
pub open spec fn is_full_run(s: Contents, p: Seq<u8>, out: Seq<Record>) -> bool {
    &&& is_run(s, p, out)
    &&& forall|x: Seq<u8>| #[trigger] s.contains_key(x) && p.is_prefix_of(x) ==> listed(out, x)
}

/// The keys of `s` that sort after `k`.
pub open spec fn keys_after(s: Contents, k: Seq<u8>) -> Set<Seq<u8>> {
    s.dom().filter(|x: Seq<u8>| lex_lt(k, x))
}

/// The mathematical content of a list of records.
pub open spec fn records_view(v: Seq<(Vec<u8>, Vec<u8>)>) -> Seq<Record> {
    Seq::new(v.len(), |i: int| (v[i].0@, v[i].1@))
}

/// A number of records as a machine integer, held at the greatest when it is
/// beyond it.
pub open spec fn saturated(n: nat) -> u64 {
    if n <= u64::MAX {
        n as u64
    } else {
        u64::MAX
    }
}

/// `run` lists the records of `c`, all of them, in ascending order of the
/// keys.
pub open spec fn is_listing(c: Contents, run: Seq<Record>) -> bool {
    &&& forall|i: int|
        0 <= i < run.len() ==> c.contains_key((#[trigger] run[i]).0) && c[run[i].0] == run[i].1
    &&& forall|i: int, j: int|
        0 <= i < j < run.len() ==> lex_lt((#[trigger] run[i]).0, (#[trigger] run[j]).0)
    &&& forall|x: Seq<u8>| #[trigger] c.contains_key(x) ==> listed(run, x)
}

/// The records of a finite store can be listed in the order of their keys.
pub proof fn lemma_listing_exists(c: Contents) -> (run: Seq<Record>)
    requires
        c.dom().finite(),
    ensures
        is_listing(c, run),
    decreases c.dom().len(),
{
    if crate::model::is_empty(c) {
        Seq::empty()
    } else {
        crate::model::lemma_least_exists(c);
        let k = crate::model::least_key(c);
        let rest = c.remove(k);
        assert(rest.dom() =~= c.dom().remove(k));
        let tail = lemma_listing_exists(rest);
        let run = seq![(k, c[k])] + tail;
        assert forall|i: int, j: int| 0 <= i < j < run.len() implies lex_lt(
            (#[trigger] run[i]).0,
            (#[trigger] run[j]).0,
        ) by {
            assert(run[j] == tail[j - 1]);
            assert(rest.contains_key(tail[j - 1].0));
            if i == 0 {
                assert(c.contains_key(tail[j - 1].0));
            } else {
                assert(run[i] == tail[i - 1]);
            }
        }
        assert forall|x: Seq<u8>| #[trigger] c.contains_key(x) implies listed(run, x) by {
            if x == k {
                assert(run[0].0 == x);
            } else {
                assert(rest.contains_key(x));
                let i = choose|i: int| 0 <= i < tail.len() && (#[trigger] tail[i]).0 == x;
                assert(run[i + 1].0 == x);
            }
        }
        assert forall|i: int| 0 <= i < run.len() implies c.contains_key((#[trigger] run[i]).0)
            && c[run[i].0] == run[i].1 by {
            if i > 0 {
                assert(run[i] == tail[i - 1]);
                assert(rest.contains_key(tail[i - 1].0));
            }
        }
        run
    }
}

/// A finite store has a full run for every prefix.
pub proof fn law_full_run_exists(s: Contents, p: Seq<u8>) -> (full: Seq<Record>)
    requires
        s.dom().finite(),
    ensures
        is_full_run(s, p, full),
{
    let within = Set::new(|k: Seq<u8>| p.is_prefix_of(k));
    let c = s.restrict(within);
    assert(c.dom() =~= s.dom().intersect(within));
    vstd::set_lib::lemma_len_intersect(s.dom(), within);
    let full = lemma_listing_exists(c);
    assert forall|x: Seq<u8>| #[trigger]
        s.contains_key(x) && p.is_prefix_of(x) implies listed(full, x) by {
        assert(c.contains_key(x));
    }
    assert forall|i: int| 0 <= i < full.len() implies s.contains_key((#[trigger] full[i]).0)
        && s[full[i].0] == full[i].1 && p.is_prefix_of(full[i].0) by {
        assert(c.contains_key(full[i].0));
    }
    full
}

/// There is one full run only.
pub proof fn lemma_full_run_unique(s: Contents, p: Seq<u8>, a: Seq<Record>, b: Seq<Record>)
    requires
        is_full_run(s, p, a),
        is_full_run(s, p, b),
    ensures
        a == b,
{
    lemma_run_prefix(s, p, a, b);
    lemma_run_prefix(s, p, b, a);
    assert(a =~= b);
}

/// A run without its last record is a run.
pub proof fn lemma_run_drop_last(s: Contents, p: Seq<u8>, run: Seq<Record>)
    requires
        is_run(s, p, run),
        run.len() > 0,
    ensures
        is_run(s, p, run.drop_last()),
{
    let n = run.len() - 1;
    let head = run.drop_last();
    assert forall|x: Seq<u8>| #[trigger] s.contains_key(x) && p.is_prefix_of(x) implies listed(
        head,
        x,
    ) || after_all(head, x) by {
        if listed(run, x) {
            let i = choose|i: int| 0 <= i < run.len() && (#[trigger] run[i]).0 == x;
            if i < n {
                assert(head[i].0 == x);
            } else {
                assert forall|j: int| 0 <= j < head.len() implies lex_lt(
                    (#[trigger] head[j]).0,
                    x,
                ) by {
                    assert(lex_lt(run[j].0, run[n].0));
                }
            }
        } else {
            assert forall|j: int| 0 <= j < head.len() implies lex_lt((#[trigger] head[j]).0, x) by {
                assert(lex_lt(run[j].0, x));
            }
        }
    }
    assert forall|i: int| 0 <= i < head.len() implies s.contains_key((#[trigger] head[i]).0)
        && s[head[i].0] == head[i].1 && p.is_prefix_of(head[i].0) by {
        assert(head[i] == run[i]);
    }
    assert forall|i: int, j: int| 0 <= i < j < head.len() implies lex_lt(
        (#[trigger] head[i]).0,
        (#[trigger] head[j]).0,
    ) by {
        assert(head[i] == run[i] && head[j] == run[j]);
    }
}

/// A full run starts with every run: the two agree as far as the run goes.
pub proof fn lemma_run_prefix(s: Contents, p: Seq<u8>, run: Seq<Record>, full: Seq<Record>)
    requires
        is_run(s, p, run),
        is_full_run(s, p, full),
    ensures
        run.len() <= full.len(),
        forall|i: int| 0 <= i < run.len() ==> run[i] == full[i],
    decreases run.len(),
{
    if run.len() > 0 {
        let n = run.len() - 1;
        let head = run.drop_last();
        lemma_run_drop_last(s, p, run);
        lemma_run_prefix(s, p, head, full);
        assert forall|i: int| 0 <= i < n implies run[i] == full[i] by {
            assert(head[i] == run[i]);
        }
        // The last record of the run is somewhere in the full run ...
        let x = run[n].0;
        assert(s.contains_key(run[n].0));
        assert(listed(full, x));
        let at = choose|i: int| 0 <= i < full.len() && (#[trigger] full[i]).0 == x;
        // ... not among the first `n`, which are the head,
        if at < n {
            assert(full[at] == run[at]);
            assert(lex_lt(run[at].0, run[n].0));
            lemma_lex_irreflexive(x);
        }
        // ... and not beyond index `n`, for then the full run's record at `n`
        // would have been skipped by the run.
        if at > n {
            let y = full[n].0;
            assert(lex_lt(full[n].0, full[at].0));
            assert(s.contains_key(full[n].0));
            if listed(run, y) {
                let j = choose|j: int| 0 <= j < run.len() && (#[trigger] run[j]).0 == y;
                if j < n {
                    assert(run[j] == full[j]);
                    assert(lex_lt(full[j].0, full[n].0));
                    lemma_lex_irreflexive(y);
                } else {
                    lemma_lex_irreflexive(y);
                }
            } else {
                assert(lex_lt(run[n].0, y));
                lemma_lex_asymmetric(x, y);
            }
        }
        assert(at == n);
        assert(full[n].1 == s[x]);
        assert(run[n] == full[n]);
    }
}

/// A place in the walk over the records of a store whose keys start with a
/// prefix.
pub struct Cursor {
    /// The prefix that the keys share.
    pub prefix: Vec<u8>,
    /// The key of the record handed out last.
    pub last: Option<Vec<u8>>,
    /// Whether the walk has come to its end.
    pub done: bool,
    /// The records handed out so far.
    pub taken: Ghost<Seq<Record>>,
}

impl Cursor {
    /// The cursor stands somewhere in the walk over `s`: what it handed out
    /// is a run, the key it remembers is the last of it, and at the end the
    /// run is full.
    pub closed spec fn inv(&self, s: Contents) -> bool {
        &&& is_run(s, self.prefix@, self.taken@)
        &&& match self.last {
            Some(k) => self.taken@.len() > 0 && self.taken@.last().0 == k@,
            None => self.taken@.len() == 0,
        }
        &&& self.done ==> is_full_run(s, self.prefix@, self.taken@)
    }

    /// What a cursor in the walk has handed out is a run, and a full one at
    /// the end.
    pub proof fn lemma_inv(&self, s: Contents)
        requires
            self.inv(s),
        ensures
            is_run(s, self.prefix@, self.taken@),
            self.done ==> is_full_run(s, self.prefix@, self.taken@),
    {
    }

    /// A bound on the number of steps that are left.
    pub closed spec fn remaining(&self, s: Contents) -> nat {
        if self.done {
            0
        } else {
            match self.last {
                Some(k) => keys_after(s, k@).len() + 1,
                None => s.dom().len() + 2,
            }
        }
    }

    /// A cursor before the first record with the prefix.
    pub fn new(prefix: &[u8]) -> (r: Cursor)
        ensures
            r.prefix@ == prefix@,
            r.taken@ == Seq::<Record>::empty(),
            !r.done,
            forall|s: Contents| r.inv(s),
    {
        let r = Cursor {
            prefix: slice_to_vec(prefix),
            last: None,
            done: false,
            taken: Ghost(Seq::empty()),
        };
        assert forall|s: Contents| r.inv(s) by {
            assert forall|x: Seq<u8>| #[trigger]
                s.contains_key(x) && r.prefix@.is_prefix_of(x) implies after_all(r.taken@, x) by {}
        }
        r
    }

    /// Hands out the next record with the prefix, or none when the walk is
    /// at its end.
    pub fn next<S: KvStore>(&mut self, store: &S) -> (r: Result<
        Option<(Vec<u8>, Vec<u8>)>,
        StoreError,
    >)
        requires
            old(self).inv(store.contents()),
        ensures
            final(self).prefix == old(self).prefix,
            r is Err ==> !store.reliable(),
            store.contents().dom().finite(),
            match r {
                Ok(Some(record)) => {
                    &&& !old(self).done
                    &&& !final(self).done
                    &&& final(self).taken@ == old(self).taken@.push((record.0@, record.1@))
                    &&& final(self).inv(store.contents())
                    &&& final(self).remaining(store.contents()) < old(self).remaining(
                        store.contents(),
                    )
                },
                Ok(None) => {
                    &&& final(self).done
                    &&& final(self).taken@ == old(self).taken@
                    &&& final(self).inv(store.contents())
                },
                Err(_) => *final(self) == *old(self),
            },
    {
        let ghost s = store.contents();
        let ghost p = self.prefix@;
        let ghost taken = self.taken@;
        let ghost remembered = self.last;
        let found = match &self.last {
            None => store.first_at_or_after(self.prefix.as_slice()),
            Some(k) => store.first_after(k.as_slice()),
        };
        let found = match found {
            Ok(found) => found,
            Err(e) => {
                return Err(e);
            },
        };
        if self.done {
            return Ok(None);
        }
        let inside = match &found {
            Some(record) => has_prefix(self.prefix.as_slice(), record.0.as_slice()),
            None => false,
        };
        if !inside {
            proof {
                assert forall|x: Seq<u8>| #[trigger] s.contains_key(x) && p.is_prefix_of(
                    x,
                ) implies listed(taken, x) by {
                    if !listed(taken, x) {
                        lemma_prefix_le(p, x);
                        match remembered {
                            None => {},
                            Some(last) => {
                                assert(lex_lt(taken.last().0, x));
                            },
                        }
                        let k = found.unwrap().0@;
                        match remembered {
                            None => {},
                            Some(last) => {
                                lemma_prefix_le(p, last@);
                                lemma_lex_le_lt(p, last@, k);
                                lemma_lex_asymmetric(p, k);
                            },
                        }
                        if lex_lt(k, p) {
                            lemma_lex_asymmetric(k, p);
                            lemma_lex_irreflexive(k);
                        }
                        lemma_past_prefix(p, x, k);
                        lemma_lex_asymmetric(x, k);
                        lemma_lex_irreflexive(x);
                    }
                }
            }
            self.done = true;
            return Ok(None);
        }
        let (k, v) = found.unwrap();
        proof {
            let next = taken.push((k@, v@));
            assert forall|i: int, j: int| 0 <= i < j < next.len() implies lex_lt(
                (#[trigger] next[i]).0,
                (#[trigger] next[j]).0,
            ) by {
                if j == taken.len() {
                    if i < taken.len() - 1 {
                        assert(lex_lt(taken[i].0, taken.last().0));
                        lemma_lex_transitive(taken[i].0, taken.last().0, k@);
                    }
                }
            }
            assert forall|x: Seq<u8>| #[trigger] s.contains_key(x) && p.is_prefix_of(
                x,
            ) implies listed(next, x) || after_all(next, x) by {
                if listed(taken, x) {
                    let i = choose|i: int| 0 <= i < taken.len() && (#[trigger] taken[i]).0 == x;
                    assert(next[i].0 == x);
                } else {
                    lemma_prefix_le(p, x);
                    if taken.len() > 0 {
                        assert(lex_lt(taken.last().0, x));
                    }
                    if x == k@ {
                        assert(next[taken.len() as int].0 == x);
                    } else {
                        assert forall|i: int| 0 <= i < next.len() implies lex_lt(
                            (#[trigger] next[i]).0,
                            x,
                        ) by {
                            if i < taken.len() {
                                assert(lex_lt(taken[i].0, x));
                            }
                        }
                    }
                }
            }
            assert forall|i: int| 0 <= i < next.len() implies s.contains_key(
                (#[trigger] next[i]).0,
            ) && s[next[i].0] == next[i].1 && p.is_prefix_of(next[i].0) by {
                if i < taken.len() {
                    assert(next[i] == taken[i]);
                }
            }
            // Fewer keys lie after the new record than were left before.
            let after = keys_after(s, k@);
            match remembered {
                None => {
                    vstd::set_lib::lemma_len_subset(after, s.dom());
                },
                Some(last) => {
                    let before = keys_after(s, last@);
                    assert forall|x: Seq<u8>| after.contains(x) implies before.contains(x) by {
                        lemma_lex_transitive(last@, k@, x);
                    }
                    lemma_lex_irreflexive(k@);
                    assert(before.contains(k@) && !after.contains(k@));
                    vstd::set_lib::lemma_len_subset(after, before.remove(k@));
                },
            }
        }
        self.last = Some(slice_to_vec(k.as_slice()));
        self.taken = Ghost(taken.push((k@, v@)));
        Ok(Some((k, v)))
    }
}

/// `x` sorts before every key of `out`.
pub open spec fn before_all(out: Seq<Record>, x: Seq<u8>) -> bool {
    forall|i: int| 0 <= i < out.len() ==> lex_lt(x, (#[trigger] out[i]).0)
}

/// `out` holds records of `s` whose keys start with `p`, in descending order
/// of the keys, and skips none: every such record of `s` is in `out` or
/// comes before all of `out`.
pub open spec fn is_back_run(s: Contents, p: Seq<u8>, out: Seq<Record>) -> bool {
    &&& forall|i: int|
        0 <= i < out.len() ==> s.contains_key((#[trigger] out[i]).0) && s[out[i].0] == out[i].1
            && p.is_prefix_of(out[i].0)
    &&& forall|i: int, j: int|
        0 <= i < j < out.len() ==> lex_lt((#[trigger] out[j]).0, (#[trigger] out[i]).0)
    &&& forall|x: Seq<u8>| #[trigger]
        s.contains_key(x) && p.is_prefix_of(x) ==> listed(out, x) || before_all(out, x)
}

/// `out` holds all records of `s` whose keys start with `p`, in descending
/// order of the keys.
pub open spec fn is_full_back_run(s: Contents, p: Seq<u8>, out: Seq<Record>) -> bool {
    &&& is_back_run(s, p, out)
    &&& forall|x: Seq<u8>| #[trigger] s.contains_key(x) && p.is_prefix_of(x) ==> listed(out, x)
}

/// `end` closes the range of the keys that start with `p`: they all sort
/// before it, and every key from `p` up to it starts with `p`.
pub open spec fn is_range_end(p: Seq<u8>, end: Seq<u8>) -> bool {
    &&& forall|x: Seq<u8>| #[trigger] p.is_prefix_of(x) ==> lex_lt(x, end)
    &&& forall|k: Seq<u8>| lex_le(p, k) && #[trigger] lex_lt(k, end) ==> p.is_prefix_of(k)
}

/// The keys of `s` that sort before `k`.
pub open spec fn keys_before(s: Contents, k: Seq<u8>) -> Set<Seq<u8>> {
    s.dom().filter(|x: Seq<u8>| lex_lt(x, k))
}

/// A descending run without its last record is a descending run.
pub proof fn lemma_back_run_drop_last(s: Contents, p: Seq<u8>, run: Seq<Record>)
    requires
        is_back_run(s, p, run),
        run.len() > 0,
    ensures
        is_back_run(s, p, run.drop_last()),
{
    let n = run.len() - 1;
    let head = run.drop_last();
    assert forall|x: Seq<u8>| #[trigger] s.contains_key(x) && p.is_prefix_of(x) implies listed(
        head,
        x,
    ) || before_all(head, x) by {
        if listed(run, x) {
            let i = choose|i: int| 0 <= i < run.len() && (#[trigger] run[i]).0 == x;
            if i < n {
                assert(head[i].0 == x);
            } else {
                assert forall|j: int| 0 <= j < head.len() implies lex_lt(
                    x,
                    (#[trigger] head[j]).0,
                ) by {
                    assert(lex_lt(run[n].0, run[j].0));
                }
            }
        } else {
            assert forall|j: int| 0 <= j < head.len() implies lex_lt(x, (#[trigger] head[j]).0) by {
                assert(lex_lt(x, run[j].0));
            }
        }
    }
    assert forall|i: int| 0 <= i < head.len() implies s.contains_key((#[trigger] head[i]).0)
        && s[head[i].0] == head[i].1 && p.is_prefix_of(head[i].0) by {
        assert(head[i] == run[i]);
    }
    assert forall|i: int, j: int| 0 <= i < j < head.len() implies lex_lt(
        (#[trigger] head[j]).0,
        (#[trigger] head[i]).0,
    ) by {
        assert(head[i] == run[i] && head[j] == run[j]);
    }
}

/// A place in the walk, from the greatest key down, over the records of a
/// store whose keys start with a prefix.
pub struct BackCursor {
    /// The prefix that the keys share.
    pub prefix: Vec<u8>,
    /// The end of the range of the keys with the prefix.
    pub end: Vec<u8>,
    /// The key of the record handed out last.
    pub last: Option<Vec<u8>>,
    /// Whether the walk has come to its end.
    pub done: bool,
    /// The records handed out so far.
    pub taken: Ghost<Seq<Record>>,
}

impl BackCursor {
    /// The cursor stands somewhere in the walk over `s`.
    pub closed spec fn inv(&self, s: Contents) -> bool {
        &&& is_range_end(self.prefix@, self.end@)
        &&& is_back_run(s, self.prefix@, self.taken@)
        &&& match self.last {
            Some(k) => self.taken@.len() > 0 && self.taken@.last().0 == k@,
            None => self.taken@.len() == 0,
        }
        &&& self.done ==> is_full_back_run(s, self.prefix@, self.taken@)
    }

    /// What a cursor in the walk has handed out is a descending run, and a
    /// full one at the end.
    pub proof fn lemma_inv(&self, s: Contents)
        requires
            self.inv(s),
        ensures
            is_back_run(s, self.prefix@, self.taken@),
            self.done ==> is_full_back_run(s, self.prefix@, self.taken@),
    {
    }

    /// A bound on the number of steps that are left.
    pub closed spec fn remaining(&self, s: Contents) -> nat {
        if self.done {
            0
        } else {
            match self.last {
                Some(k) => keys_before(s, k@).len() + 1,
                None => s.dom().len() + 2,
            }
        }
    }

    /// A cursor after the last record with the prefix.
    pub fn new(prefix: &[u8], end: &[u8]) -> (r: BackCursor)
        requires
            is_range_end(prefix@, end@),
        ensures
            r.prefix@ == prefix@,
            r.taken@ == Seq::<Record>::empty(),
            forall|s: Contents| r.inv(s),
    {
        let r = BackCursor {
            prefix: slice_to_vec(prefix),
            end: slice_to_vec(end),
            last: None,
            done: false,
            taken: Ghost(Seq::empty()),
        };
        assert forall|s: Contents| r.inv(s) by {
            assert forall|x: Seq<u8>| #[trigger]
                s.contains_key(x) && r.prefix@.is_prefix_of(x) implies before_all(r.taken@, x) by {}
        }
        r
    }

    /// Hands out the next record down, or none when the walk is at its end.
    pub fn next<S: KvStore>(&mut self, store: &S) -> (r: Result<
        Option<(Vec<u8>, Vec<u8>)>,
        StoreError,
    >)
        requires
            old(self).inv(store.contents()),
        ensures
            final(self).prefix == old(self).prefix,
            r is Err ==> !store.reliable(),
            match r {
                Ok(Some(record)) => {
                    &&& final(self).taken@ == old(self).taken@.push((record.0@, record.1@))
                    &&& final(self).inv(store.contents())
                    &&& final(self).remaining(store.contents()) < old(self).remaining(
                        store.contents(),
                    )
                },
                Ok(None) => {
                    &&& final(self).done
                    &&& final(self).taken@ == old(self).taken@
                    &&& final(self).inv(store.contents())
                },
                Err(_) => true,
            },
    {
        let ghost s = store.contents();
        let ghost p = self.prefix@;
        let ghost end = self.end@;
        let ghost taken = self.taken@;
        let ghost remembered = self.last;
        let found = match &self.last {
            None => store.last_before(self.end.as_slice()),
            Some(k) => store.last_before(k.as_slice()),
        };
        let found = match found {
            Ok(found) => found,
            Err(e) => {
                return Err(e);
            },
        };
        if self.done {
            return Ok(None);
        }
        let inside = match &found {
            Some(record) => has_prefix(self.prefix.as_slice(), record.0.as_slice()),
            None => false,
        };
        if !inside {
            proof {
                assert forall|x: Seq<u8>| #[trigger] s.contains_key(x) && p.is_prefix_of(
                    x,
                ) implies listed(taken, x) by {
                    if !listed(taken, x) {
                        lemma_prefix_le(p, x);
                        match remembered {
                            None => {
                                let k = found.unwrap().0@;
                                if p != k {
                                    lemma_lex_le_lt(p, x, k);
                                }
                                assert(lex_lt(k, end));
                            },
                            Some(last) => {
                                assert(lex_lt(x, taken.last().0));
                                let k = found.unwrap().0@;
                                crate::lex::lemma_between_prefix(p, x, k, last@);
                            },
                        }
                    }
                }
            }
            self.done = true;
            return Ok(None);
        }
        let (k, v) = found.unwrap();
        proof {
            let next = taken.push((k@, v@));
            assert forall|i: int, j: int| 0 <= i < j < next.len() implies lex_lt(
                (#[trigger] next[j]).0,
                (#[trigger] next[i]).0,
            ) by {
                if j == taken.len() {
                    if i < taken.len() - 1 {
                        assert(lex_lt(taken.last().0, taken[i].0));
                        lemma_lex_transitive(k@, taken.last().0, taken[i].0);
                    }
                }
            }
            assert forall|x: Seq<u8>| #[trigger] s.contains_key(x) && p.is_prefix_of(
                x,
            ) implies listed(next, x) || before_all(next, x) by {
                if listed(taken, x) {
                    let i = choose|i: int| 0 <= i < taken.len() && (#[trigger] taken[i]).0 == x;
                    assert(next[i].0 == x);
                } else {
                    if taken.len() > 0 {
                        assert(lex_lt(x, taken.last().0));
                    }
                    if x == k@ {
                        assert(next[taken.len() as int].0 == x);
                    } else {
                        assert forall|i: int| 0 <= i < next.len() implies lex_lt(
                            x,
                            (#[trigger] next[i]).0,
                        ) by {
                            if i < taken.len() {
                                assert(lex_lt(x, taken[i].0));
                            }
                        }
                    }
                }
            }
            assert forall|i: int| 0 <= i < next.len() implies s.contains_key(
                (#[trigger] next[i]).0,
            ) && s[next[i].0] == next[i].1 && p.is_prefix_of(next[i].0) by {
                if i < taken.len() {
                    assert(next[i] == taken[i]);
                }
            }
            let below = keys_before(s, k@);
            match remembered {
                None => {
                    vstd::set_lib::lemma_len_subset(below, s.dom());
                },
                Some(last) => {
                    let before = keys_before(s, last@);
                    assert forall|x: Seq<u8>| below.contains(x) implies before.contains(x) by {
                        lemma_lex_transitive(x, k@, last@);
                    }
                    lemma_lex_irreflexive(k@);
                    assert(before.contains(k@) && !below.contains(k@));
                    vstd::set_lib::lemma_len_subset(below, before.remove(k@));
                },
            }
        }
        self.last = Some(slice_to_vec(k.as_slice()));
        self.taken = Ghost(taken.push((k@, v@)));
        Ok(Some((k, v)))
    }
}

/// The visitor was shown the first `n` records of `full` and said to go on
/// at each but the last, where it said to stop unless `full` ends there.
pub open spec fn is_visit(
    full: Seq<Record>,
    answered: spec_fn(Record, bool) -> bool,
    n: u64,
) -> bool {
    &&& n <= full.len()
    &&& forall|i: int| 0 <= i < n - 1 ==> answered(#[trigger] full[i], true)
    &&& n > 0 ==> answered(full[n - 1], false) || (answered(full[n - 1], true) && n == full.len())
    &&& n == 0 ==> full.len() == 0
}

/// The visitor was shown the first `n` records of `full`, if not more, and
/// said to go on at each of them before the last.
pub open spec fn is_long_visit(
    full: Seq<Record>,
    answered: spec_fn(Record, bool) -> bool,
    n: nat,
) -> bool {
    &&& n <= full.len()
    &&& forall|i: int| 0 <= i < n - 1 ==> answered(#[trigger] full[i], true)
}

/// The visitor was shown the first `n` records of `full`; that many at the
/// least when `n` stands at `u64::MAX`.
pub open spec fn shown_to(
    full: Seq<Record>,
    answered: spec_fn(Record, bool) -> bool,
    n: u64,
) -> bool {
    if n < u64::MAX {
        is_visit(full, answered, n)
    } else {
        is_long_visit(full, answered, n as nat)
    }
}

/// The walk came to grief at the record with index `b` of `full`: that
/// record cannot be read, and the visitor, shown each record before it, said
/// to go on.
pub open spec fn stopped_at(
    full: Seq<Record>,
    answered: spec_fn(Record, bool) -> bool,
    readable: spec_fn(Record) -> bool,
    b: int,
) -> bool {
    &&& 0 <= b < full.len()
    &&& !readable(full[b])
    &&& forall|i: int| 0 <= i < b ==> answered(#[trigger] full[i], true)
}

/// The walk came to grief at some record of `full`, one of the first `limit`
/// where a limit is set; `usize::MAX` stands for no limit.
pub open spec fn failed_in(
    full: Seq<Record>,
    answered: spec_fn(Record, bool) -> bool,
    readable: spec_fn(Record) -> bool,
    limit: usize,
) -> bool {
    exists|b: int| #[trigger]
        stopped_at(full, answered, readable, b) && (limit < usize::MAX ==> b < limit)
}

/// A walk over the records with prefix `p` came to grief at a record that
/// cannot be read, after the visitor said to go on at each record before it.
pub open spec fn walk_failed(
    s: Contents,
    p: Seq<u8>,
    answered: spec_fn(Record, bool) -> bool,
    readable: spec_fn(Record) -> bool,
    limit: usize,
) -> bool {
    forall|full: Seq<Record>| #[trigger]
        is_full_run(s, p, full) ==> failed_in(full, answered, readable, limit)
}

/// A walk over the records with prefix `p` showed the visitor `n` records:
/// the first `n` of all that there are.
pub open spec fn walked_under(
    s: Contents,
    p: Seq<u8>,
    answered: spec_fn(Record, bool) -> bool,
    n: u64,
) -> bool {
    forall|full: Seq<Record>| #[trigger] is_full_run(s, p, full) ==> shown_to(full, answered, n)
}

/// A walk over the records with prefix `p`, if there is such a prefix, showed
/// the visitor `n` records: the first `n` of all that there are, and that many
/// at the least when the count stands at `u64::MAX`, beyond which it does not
/// go.
pub open spec fn walked(
    s: Contents,
    p: Option<Seq<u8>>,
    answered: spec_fn(Record, bool) -> bool,
    n: u64,
) -> bool {
    match p {
        None => n == 0,
        Some(p) => walked_under(s, p, answered, n),
    }
}

/// What a walk showed, set against all the records that there are.
pub proof fn lemma_walked(
    s: Contents,
    p: Seq<u8>,
    answered: spec_fn(Record, bool) -> bool,
    n: u64,
    full: Seq<Record>,
)
    requires
        walked(s, Some(p), answered, n),
        is_full_run(s, p, full),
    ensures
        shown_to(full, answered, n),
{
}

/// A walk in progress: a cursor and the number of records it handed out.
pub struct Walk {
    pub cursor: Cursor,
    pub count: u64,
}

impl Walk {
    /// The walk stands somewhere in `s`, has counted what it handed out, and
    /// was told to go on at every record before the last.
    pub open spec fn inv(&self, s: Contents, answered: spec_fn(Record, bool) -> bool) -> bool {
        &&& self.cursor.inv(s)
        &&& self.count == saturated(self.cursor.taken@.len())
        &&& forall|i: int|
            0 <= i < self.cursor.taken@.len() - 1 ==> answered(
                #[trigger] self.cursor.taken@[i],
                true,
            )
    }

    /// The walk was told to go on at the last record too.
    pub open spec fn settled(&self, answered: spec_fn(Record, bool) -> bool) -> bool {
        self.cursor.taken@.len() > 0 ==> answered(self.cursor.taken@.last(), true)
    }

    /// A walk before the first record with the prefix.
    pub fn new(prefix: &[u8]) -> (r: Walk)
        ensures
            r.cursor.prefix@ == prefix@,
            r.count == 0,
            r.cursor.taken@ == Seq::<Record>::empty(),
            forall|s: Contents, answered: spec_fn(Record, bool) -> bool|
                r.inv(s, answered) && r.settled(answered),
    {
        Walk { cursor: Cursor::new(prefix), count: 0 }
    }

    /// Hands out the next record and counts it.
    pub fn next<S: KvStore>(
        &mut self,
        store: &S,
        Ghost(answered): Ghost<spec_fn(Record, bool) -> bool>,
    ) -> (r: Result<Option<(Vec<u8>, Vec<u8>)>, StoreError>)
        requires
            old(self).inv(store.contents(), answered),
            old(self).settled(answered),
        ensures
            final(self).cursor.prefix == old(self).cursor.prefix,
            r is Err ==> !store.reliable(),
            match r {
                Ok(Some(record)) => {
                    &&& final(self).cursor.taken@ == old(self).cursor.taken@.push(
                        (record.0@, record.1@),
                    )
                    &&& final(self).inv(store.contents(), answered)
                    &&& final(self).cursor.remaining(store.contents()) < old(
                        self,
                    ).cursor.remaining(store.contents())
                },
                Ok(None) => {
                    &&& final(self).cursor.done
                    &&& final(self).cursor.taken@ == old(self).cursor.taken@
                    &&& final(self).count == old(self).count
                    &&& final(self).inv(store.contents(), answered)
                    &&& final(self).settled(answered)
                },
                Err(_) => true,
            },
    {
        let found = self.cursor.next(store)?;
        match found {
            None => Ok(None),
            Some(record) => {
                if self.count < u64::MAX {
                    self.count = self.count + 1;
                }
                Ok(Some(record))
            },
        }
    }

    /// What the walk has shown so far are the first records of all that
    /// there are, and the visitor said to go on at each before the last.
    pub proof fn lemma_shown(&self, s: Contents, answered: spec_fn(Record, bool) -> bool)
        requires
            self.inv(s, answered),
        ensures
            forall|full: Seq<Record>| #[trigger]
                is_full_run(s, self.cursor.prefix@, full) ==> is_long_visit(
                    full,
                    answered,
                    self.cursor.taken@.len(),
                ),
    {
        let p = self.cursor.prefix@;
        let run = self.cursor.taken@;
        assert forall|full: Seq<Record>| #[trigger] is_full_run(s, p, full) implies is_long_visit(
            full,
            answered,
            run.len(),
        ) by {
            lemma_run_prefix(s, p, run, full);
            assert forall|i: int| 0 <= i < run.len() - 1 implies answered(
                #[trigger] full[i],
                true,
            ) by {
                assert(run[i] == full[i]);
            }
        }
    }

    /// A walk that cannot read the record it was handed last has come to
    /// grief at that record.
    pub proof fn lemma_failed(
        &self,
        s: Contents,
        answered: spec_fn(Record, bool) -> bool,
        readable: spec_fn(Record) -> bool,
        limit: usize,
    )
        requires
            self.inv(s, answered),
            self.cursor.taken@.len() > 0,
            !readable(self.cursor.taken@.last()),
            limit < usize::MAX ==> self.count <= limit,
        ensures
            walk_failed(s, self.cursor.prefix@, answered, readable, limit),
    {
        let p = self.cursor.prefix@;
        let run = self.cursor.taken@;
        let b = run.len() - 1;
        assert forall|full: Seq<Record>| #[trigger] is_full_run(s, p, full) implies failed_in(
            full,
            answered,
            readable,
            limit,
        ) by {
            lemma_run_prefix(s, p, run, full);
            assert(run[b] == full[b]);
            assert forall|i: int| 0 <= i < b implies answered(#[trigger] full[i], true) by {
                assert(run[i] == full[i]);
            }
            assert(stopped_at(full, answered, readable, b));
        }
    }

    /// What the walk visited, once the visitor has answered on the last
    /// record: with `go` false, or with the walk at its end.
    pub proof fn lemma_finished(
        &self,
        s: Contents,
        answered: spec_fn(Record, bool) -> bool,
        go: bool,
    )
        requires
            self.inv(s, answered),
            self.cursor.taken@.len() > 0 ==> answered(self.cursor.taken@.last(), go),
            go ==> self.cursor.done,
            self.cursor.taken@.len() == 0 ==> self.cursor.done,
        ensures
            walked(s, Some(self.cursor.prefix@), answered, self.count),
    {
        let p = self.cursor.prefix@;
        let run = self.cursor.taken@;
        self.lemma_shown(s, answered);
        assert forall|full: Seq<Record>| #[trigger] is_full_run(s, p, full) implies shown_to(
            full,
            answered,
            self.count,
        ) by {
            lemma_run_prefix(s, p, run, full);
            if self.cursor.done {
                lemma_full_run_unique(s, p, run, full);
            }
            assert(is_long_visit(full, answered, run.len()));
            if run.len() > 0 {
                assert(run.last() == full[run.len() - 1]);
            }
        }
    }
}

} // verus!
