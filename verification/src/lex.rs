//! Lexicographic order on byte strings.
//!
//! Every ordering guarantee of the collections rests on the bytewise order of
//! the keys in the underlying store. This module defines that order, the
//! executable comparison, and the facts about prefixes and concatenation that
//! the key layout relies on.

use vstd::prelude::*;

verus! {

/// `a` sorts strictly before `b` when compared byte by byte; a proper prefix
/// sorts before every extension of it.
pub open spec fn lex_lt(a: Seq<u8>, b: Seq<u8>) -> bool
    decreases a.len(),
{
    if b.len() == 0 {
        false
    } else if a.len() == 0 {
        true
    } else if a[0] != b[0] {
        a[0] < b[0]
    } else {
        lex_lt(a.drop_first(), b.drop_first())
    }
}

/// `a` sorts before `b` or equals it.
pub open spec fn lex_le(a: Seq<u8>, b: Seq<u8>) -> bool {
    a == b || lex_lt(a, b)
}

/// No byte string sorts before itself.
pub proof fn lemma_lex_irreflexive(a: Seq<u8>)
    ensures
        !lex_lt(a, a),
    decreases a.len(),
{
    if a.len() > 0 {
        lemma_lex_irreflexive(a.drop_first());
    }
}

/// Two byte strings are never each before the other.
pub proof fn lemma_lex_asymmetric(a: Seq<u8>, b: Seq<u8>)
    requires
        lex_lt(a, b),
    ensures
        !lex_lt(b, a),
    decreases a.len(),
{
    if a.len() > 0 && b.len() > 0 && a[0] == b[0] {
        lemma_lex_asymmetric(a.drop_first(), b.drop_first());
    }
}

/// The order is transitive.
pub proof fn lemma_lex_transitive(a: Seq<u8>, b: Seq<u8>, c: Seq<u8>)
    requires
        lex_lt(a, b),
        lex_lt(b, c),
    ensures
        lex_lt(a, c),
    decreases a.len(),
{
    if a.len() > 0 && b.len() > 0 && c.len() > 0 && a[0] == b[0] && b[0] == c[0] {
        lemma_lex_transitive(a.drop_first(), b.drop_first(), c.drop_first());
    }
}

/// Any two byte strings are equal or ordered one way.
pub proof fn lemma_lex_total(a: Seq<u8>, b: Seq<u8>)
    ensures
        lex_lt(a, b) || a == b || lex_lt(b, a),
    decreases a.len(),
{
    if a.len() > 0 && b.len() > 0 && a[0] == b[0] {
        lemma_lex_total(a.drop_first(), b.drop_first());
        if a.drop_first() == b.drop_first() {
            assert(a =~= seq![a[0]] + a.drop_first());
            assert(b =~= seq![b[0]] + b.drop_first());
        }
    } else if a.len() == 0 && b.len() == 0 {
        assert(a =~= b);
    }
}

/// `a <= b < c` gives `a < c`.
pub proof fn lemma_lex_le_lt(a: Seq<u8>, b: Seq<u8>, c: Seq<u8>)
    requires
        lex_le(a, b),
        lex_lt(b, c),
    ensures
        lex_lt(a, c),
{
    if a != b {
        lemma_lex_transitive(a, b, c);
    }
}

/// `a < b <= c` gives `a < c`.
pub proof fn lemma_lex_lt_le(a: Seq<u8>, b: Seq<u8>, c: Seq<u8>)
    requires
        lex_lt(a, b),
        lex_le(b, c),
    ensures
        lex_lt(a, c),
{
    if b != c {
        lemma_lex_transitive(a, b, c);
    }
}

/// A shared head does not change how two byte strings compare.
pub proof fn lemma_lex_concat(p: Seq<u8>, a: Seq<u8>, b: Seq<u8>)
    ensures
        lex_lt(p + a, p + b) == lex_lt(a, b),
    decreases p.len(),
{
    if p.len() == 0 {
        assert(p + a =~= a);
        assert(p + b =~= b);
    } else {
        assert((p + a).drop_first() =~= p.drop_first() + a);
        assert((p + b).drop_first() =~= p.drop_first() + b);
        lemma_lex_concat(p.drop_first(), a, b);
    }
}

/// A prefix never sorts after a byte string that starts with it.
pub proof fn lemma_prefix_le(p: Seq<u8>, k: Seq<u8>)
    requires
        p.is_prefix_of(k),
    ensures
        lex_le(p, k),
        !lex_lt(k, p),
    decreases p.len(),
{
    if p.len() > 0 {
        assert(p.drop_first().is_prefix_of(k.drop_first()));
        lemma_prefix_le(p.drop_first(), k.drop_first());
        if p.drop_first() == k.drop_first() {
            assert(p =~= k);
        }
    } else if k.len() == 0 {
        assert(p =~= k);
    }
}

/// The byte strings that start with `p` form one unbroken run of the order:
/// a string at or after `p` that does not start with `p` lies after all of them.
pub proof fn lemma_past_prefix(p: Seq<u8>, a: Seq<u8>, b: Seq<u8>)
    requires
        p.is_prefix_of(a),
        !p.is_prefix_of(b),
        !lex_lt(b, p),
    ensures
        lex_lt(a, b),
    decreases p.len(),
{
    if p.len() == 0 {
        assert(p.is_prefix_of(b));
    } else if b.len() > 0 && b[0] == p[0] {
        assert(p.drop_first().is_prefix_of(a.drop_first()));
        if p.drop_first().is_prefix_of(b.drop_first()) {
            let q = p.drop_first();
            let c = b.drop_first();
            assert forall|i: int| 0 <= i < p.len() implies p[i] == b[i] by {
                if i > 0 {
                    assert(q[i - 1] == c.subrange(0, q.len() as int)[i - 1]);
                }
            }
            assert(p =~= b.subrange(0, p.len() as int));
        }
        lemma_past_prefix(p.drop_first(), a.drop_first(), b.drop_first());
    }
}

/// Between two byte strings of one length that differ only from some byte on,
/// appending a byte to each keeps the order of the heads, and the appended
/// bytes decide when the heads are equal.
pub proof fn lemma_lex_push(a: Seq<u8>, x: u8, b: Seq<u8>, y: u8)
    requires
        a.len() == b.len(),
    ensures
        lex_lt(a.push(x), b.push(y)) == (lex_lt(a, b) || (a == b && x < y)),
    decreases a.len(),
{
    if a.len() == 0 {
        assert(a =~= b);
        assert(a.push(x).drop_first() =~= Seq::<u8>::empty());
        assert(b.push(y).drop_first() =~= Seq::<u8>::empty());
        assert(a.push(x)[0] == x);
        assert(b.push(y)[0] == y);
        assert(!lex_lt(a.push(x).drop_first(), b.push(y).drop_first()));
    } else {
        assert(a.push(x).drop_first() =~= a.drop_first().push(x));
        assert(b.push(y).drop_first() =~= b.drop_first().push(y));
        lemma_lex_push(a.drop_first(), x, b.drop_first(), y);
        if a[0] == b[0] {
            if a.drop_first() == b.drop_first() {
                assert(a =~= seq![a[0]] + a.drop_first());
                assert(b =~= seq![b[0]] + b.drop_first());
            }
        }
    }
}

/// Of two byte strings of one length, the smaller stays the smaller whatever
/// is appended to either.
pub proof fn lemma_lex_extend(a: Seq<u8>, b: Seq<u8>, t: Seq<u8>, u: Seq<u8>)
    requires
        lex_lt(a, b),
        a.len() == b.len(),
    ensures
        lex_lt(a + t, b + u),
    decreases a.len(),
{
    if a.len() > 0 {
        assert((a + t).drop_first() =~= a.drop_first() + t);
        assert((b + u).drop_first() =~= b.drop_first() + u);
        if a[0] == b[0] {
            lemma_lex_extend(a.drop_first(), b.drop_first(), t, u);
        }
    }
}

/// The smaller of two byte strings stays the smaller whatever is appended to
/// either, unless it is the start of the greater.
pub proof fn lemma_lex_extend_apart(a: Seq<u8>, b: Seq<u8>, t: Seq<u8>, u: Seq<u8>)
    requires
        lex_lt(a, b),
        !a.is_prefix_of(b),
    ensures
        lex_lt(a + t, b + u),
    decreases a.len(),
{
    if a.len() == 0 {
        assert(a.is_prefix_of(b)) by {
            assert(b.subrange(0, 0) =~= a);
        }
    } else {
        assert((a + t).drop_first() =~= a.drop_first() + t);
        assert((b + u).drop_first() =~= b.drop_first() + u);
        if a[0] == b[0] {
            let x = a.drop_first();
            let y = b.drop_first();
            if x.is_prefix_of(y) {
                assert forall|i: int| 0 <= i < a.len() implies a[i] == b[i] by {
                    if i > 0 {
                        assert(x[i - 1] == y.subrange(0, x.len() as int)[i - 1]);
                    }
                }
                assert(a =~= b.subrange(0, a.len() as int));
            }
            lemma_lex_extend_apart(x, y, t, u);
        }
    }
}

/// The smaller of two byte strings stays the smaller when the greater is
/// made longer.
pub proof fn lemma_lex_append(a: Seq<u8>, b: Seq<u8>, u: Seq<u8>)
    requires
        lex_lt(a, b),
    ensures
        lex_lt(a, b + u),
    decreases a.len(),
{
    if a.len() > 0 {
        assert((b + u).drop_first() =~= b.drop_first() + u);
        if a[0] == b[0] {
            lemma_lex_append(a.drop_first(), b.drop_first(), u);
        }
    }
}

/// A byte string that lies between two that start with `p` starts with `p`.
pub proof fn lemma_between_prefix(p: Seq<u8>, x: Seq<u8>, k: Seq<u8>, y: Seq<u8>)
    requires
        p.is_prefix_of(x),
        p.is_prefix_of(y),
        lex_le(x, k),
        lex_le(k, y),
    ensures
        p.is_prefix_of(k),
{
    if !p.is_prefix_of(k) {
        lemma_prefix_le(p, x);
        if lex_lt(k, p) {
            lemma_lex_lt_le(k, p, x);
            lemma_lex_asymmetric(k, x);
            lemma_lex_irreflexive(k);
        }
        lemma_past_prefix(p, y, k);
        lemma_lex_asymmetric(y, k);
        lemma_lex_irreflexive(k);
    }
}

/// Whether `key` starts with `prefix`.
pub fn has_prefix(prefix: &[u8], key: &[u8]) -> (r: bool)
    ensures
        r == prefix@.is_prefix_of(key@),
{
    if prefix.len() > key.len() {
        return false;
    }
    let mut i: usize = 0;
    while i < prefix.len()
        invariant
            i <= prefix.len() <= key.len(),
            forall|j: int| 0 <= j < i ==> key@[j] == prefix@[j],
        decreases prefix.len() - i,
    {
        if prefix[i] != key[i] {
            assert(key@.subrange(0, prefix@.len() as int)[i as int] == key@[i as int]);
            return false;
        }
        i += 1;
    }
    assert(key@.subrange(0, prefix@.len() as int) =~= prefix@);
    true
}

/// Compares two scores as raw bytes: negative when `a` sorts first, zero when
/// they are equal, positive when `b` sorts first.
pub fn compare_score_bytes(a: &[u8], b: &[u8]) -> (r: i32)
    ensures
        r == -1 || r == 0 || r == 1,
        (r < 0) == lex_lt(a@, b@),
        (r == 0) == (a@ == b@),
        (r > 0) == lex_lt(b@, a@),
{
    let mut i: usize = 0;
    while i < a.len() && i < b.len()
        invariant
            i <= a.len(),
            i <= b.len(),
            a@.take(i as int) == b@.take(i as int),
        decreases a.len() - i,
    {
        if a[i] != b[i] {
            proof {
                let p = a@.take(i as int);
                assert(a@ =~= p + a@.skip(i as int));
                assert(b@ =~= p + b@.skip(i as int));
                lemma_lex_concat(p, a@.skip(i as int), b@.skip(i as int));
                lemma_lex_concat(p, b@.skip(i as int), a@.skip(i as int));
                assert(a@.skip(i as int)[0] == a@[i as int]);
                assert(b@.skip(i as int)[0] == b@[i as int]);
            }
            if a[i] < b[i] {
                return -1;
            } else {
                return 1;
            }
        }
        assert(a@.take(i + 1) =~= a@.take(i as int).push(a@[i as int]));
        assert(b@.take(i + 1) =~= b@.take(i as int).push(b@[i as int]));
        i += 1;
    }
    proof {
        let p = a@.take(i as int);
        assert(a@ =~= p + a@.skip(i as int));
        assert(b@ =~= p + b@.skip(i as int));
        lemma_lex_concat(p, a@.skip(i as int), b@.skip(i as int));
        lemma_lex_concat(p, b@.skip(i as int), a@.skip(i as int));
        if a.len() == b.len() {
            assert(a@.skip(i as int) =~= b@.skip(i as int));
            lemma_lex_irreflexive(a@.skip(i as int));
        }
    }
    if a.len() < b.len() {
        -1
    } else if a.len() > b.len() {
        1
    } else {
        0
    }
}

} // verus!
