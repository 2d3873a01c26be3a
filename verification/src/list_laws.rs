//! Lists as sequences: what pushes and pops do to the row of items, and
//! that a walk over the records gives the row.

use vstd::prelude::*;
use crate::bigendian::{be_bytes, biased, lemma_biased_order};
use crate::browse::walk_prefix;
use crate::codec::{data_prefix, list_item_key, meta_key};
use crate::each::{shows, value_shower};
use crate::lex::{lemma_lex_asymmetric, lemma_lex_concat, lemma_lex_irreflexive, lex_lt};
use crate::list::{
    after_list_pop, after_push, lemma_list_key, lemma_list_key_of, lemma_list_pop, lemma_list_push,
    list_pop_spec, list_push_spec, pop_position, push_position,
};
use crate::meta::{lemma_list_extra, KeyType};
use crate::model::{
    collection, lemma_collection_finite, lemma_collection_insert, lemma_collection_remove,
    lemma_meta_key, lemma_resolve, lemma_update_collection, meta_at, meta_ok, position_of, resolve,
    saved, DbView,
};
use crate::scan::{is_full_run, law_full_run_exists, listed};
use crate::store::{Contents, Record};

verus! {

/// The items of the list of `name`, from the first to the last; none when
/// the key is not in use.
pub open spec fn list_view(s: Contents, name: Seq<u8>) -> Seq<Seq<u8>> {
    match meta_at(s, name) {
        Some(m) => Seq::new(
            m.count as nat,
            |i: int| s[list_item_key(m.id, (m.list_left() + 1 + i) as i64)],
        ),
        None => Seq::empty(),
    }
}

/// The row of items after a sequence of pushes, each at the left end or the
/// right.
pub open spec fn pushed(row: Seq<Seq<u8>>, pushes: Seq<(bool, Seq<u8>)>) -> Seq<Seq<u8>>
    decreases pushes.len(),
{
    if pushes.len() == 0 {
        row
    } else {
        let row = pushed(row, pushes.drop_last());
        if pushes.last().0 {
            seq![pushes.last().1] + row
        } else {
            row.push(pushes.last().1)
        }
    }
}

/// The database after a sequence of pushes onto the list of `name`; none
/// when one of them is turned down.
pub open spec fn after_pushes(db: DbView, name: Seq<u8>, pushes: Seq<(bool, Seq<u8>)>) -> Option<
    DbView,
>
    decreases pushes.len(),
{
    if pushes.len() == 0 {
        Some(db)
    } else {
        match after_pushes(db, name, pushes.drop_last()) {
            None => None,
            Some(before) => {
                let out = list_push_spec(before, name, pushes.last().1, pushes.last().0);
                if out.result is Some {
                    Some(out.state)
                } else {
                    None
                }
            },
        }
    }
}

/// A push at the left end puts the value before the row, a push at the
/// right end after it, and the count is the length of the row.
pub proof fn law_list_push(db: DbView, name: Seq<u8>, value: Seq<u8>, left: bool)
    requires
        db.inv(),
        list_push_spec(db, name, value, left).result is Some,
    ensures
        list_push_spec(db, name, value, left).state.inv(),
        list_view(list_push_spec(db, name, value, left).state.records, name) == (if left {
            seq![value] + list_view(db.records, name)
        } else {
            list_view(db.records, name).push(value)
        }),
        list_push_spec(db, name, value, left).result == Some(
            (list_view(db.records, name).len() + 1) as u64,
        ),
        meta_at(list_push_spec(db, name, value, left).state.records, name) matches Some(m)
            && m.key_type == KeyType::ListKey,
{
    let before = resolve(db, name, KeyType::ListKey);
    lemma_resolve(db, name, KeyType::ListKey);
    let m = before.result.unwrap();
    let s = before.state.records;
    let c = collection(s, m.id);
    let k = list_item_key(m.id, push_position(m, left));
    let m2 = after_push(m, left);
    let s2 = list_push_spec(db, name, value, left).state.records;
    assert(s.contains_key(meta_key(name)));
    assert(meta_ok(s, name, before.state.next_key_id));
    lemma_collection_finite(s, m.id);
    lemma_list_push(c, m, value, left);
    lemma_list_key(m.id, push_position(m, left));
    lemma_collection_insert(s, m.id, k, value);
    lemma_update_collection(s, before.state.next_key_id, name, s.insert(k, value), m2, false);
    lemma_meta_key(name);
    if left {
        lemma_list_extra((m.list_left() - 1) as i64, m.list_right());
    } else {
        lemma_list_extra(m.list_left(), (m.list_right() + 1) as i64);
    }
    let old_row = list_view(s, name);
    assert(list_view(db.records, name) =~= old_row);
    let new_row = list_view(s2, name);
    let expected = if left {
        seq![value] + old_row
    } else {
        old_row.push(value)
    };
    assert(new_row.len() == expected.len());
    assert forall|i: int| 0 <= i < new_row.len() implies new_row[i] == expected[i] by {
        let position = (m2.list_left() + 1 + i) as i64;
        lemma_list_key(m.id, position);
        if position != push_position(m, left) {
            assert(s2[list_item_key(m.id, position)] == s[list_item_key(m.id, position)]);
        }
    }
    assert(new_row =~= expected);
}

/// A pop from a list with items takes the first item of the row at the left
/// end, the last at the right end, and leaves the rest of the row.
pub proof fn law_list_pop(db: DbView, drop_if_empty: bool, name: Seq<u8>, left: bool)
    requires
        db.inv(),
        meta_at(db.records, name) is Some,
        meta_at(db.records, name).unwrap().key_type == KeyType::ListKey,
        list_view(db.records, name).len() > 0,
    ensures
        list_pop_spec(db, drop_if_empty, name, left).state.inv(),
        list_pop_spec(db, drop_if_empty, name, left).result == Some(
            Some(
                if left {
                    list_view(db.records, name).first()
                } else {
                    list_view(db.records, name).last()
                },
            ),
        ),
        list_view(list_pop_spec(db, drop_if_empty, name, left).state.records, name) == (if left {
            list_view(db.records, name).drop_first()
        } else {
            list_view(db.records, name).drop_last()
        }),
{
    let m = meta_at(db.records, name).unwrap();
    let s = db.records;
    let c = collection(s, m.id);
    let position = pop_position(m, left);
    let k = list_item_key(m.id, position);
    let m2 = after_list_pop(m, left);
    let s2 = list_pop_spec(db, drop_if_empty, name, left).state.records;
    assert(s.contains_key(meta_key(name)));
    assert(meta_ok(s, name, db.next_key_id));
    lemma_collection_finite(s, m.id);
    lemma_list_key(m.id, position);
    assert(c.contains_key(k));
    lemma_list_pop(c, m, left);
    lemma_meta_key(name);
    lemma_collection_remove(s, m.id, k);
    assert(saved(s, name, m2, drop_if_empty).remove(k) =~= saved(
        s.remove(k),
        name,
        m2,
        drop_if_empty,
    ));
    lemma_update_collection(s, db.next_key_id, name, s.remove(k), m2, drop_if_empty);
    if left {
        lemma_list_extra((m.list_left() + 1) as i64, m.list_right());
    } else {
        lemma_list_extra(m.list_left(), (m.list_right() - 1) as i64);
    }
    let old_row = list_view(s, name);
    let new_row = list_view(s2, name);
    let expected = if left {
        old_row.drop_first()
    } else {
        old_row.drop_last()
    };
    assert(new_row.len() == expected.len());
    assert forall|i: int| 0 <= i < new_row.len() implies new_row[i] == expected[i] by {
        let at = (m2.list_left() + 1 + i) as i64;
        lemma_list_key(m.id, at);
        assert(s2[list_item_key(m.id, at)] == s[list_item_key(m.id, at)]);
    }
    assert(new_row =~= expected);
}

/// After any sequence of pushes that are all taken, the list is the row
/// that the pushes make.
pub proof fn law_list_pushes(db: DbView, name: Seq<u8>, pushes: Seq<(bool, Seq<u8>)>)
    requires
        db.inv(),
        after_pushes(db, name, pushes) is Some,
    ensures
        after_pushes(db, name, pushes).unwrap().inv(),
        list_view(after_pushes(db, name, pushes).unwrap().records, name) == pushed(
            list_view(db.records, name),
            pushes,
        ),
    decreases pushes.len(),
{
    if pushes.len() > 0 {
        law_list_pushes(db, name, pushes.drop_last());
        let before = after_pushes(db, name, pushes.drop_last()).unwrap();
        law_list_push(before, name, pushes.last().1, pushes.last().0);
    }
}

/// The keys of two items of a list compare as their positions do.
pub proof fn lemma_list_key_order(id: u64, p: i64, q: i64)
    ensures
        lex_lt(list_item_key(id, p), list_item_key(id, q)) == (p < q),
{
    lemma_biased_order(p, q);
    lemma_lex_concat(data_prefix(id), be_bytes(biased(p), 8), be_bytes(biased(q), 8));
}

/// In a walk over all records of a list, the record at index `i` is the
/// item at the position `i` places after the left end.
proof fn lemma_list_run_position(db: DbView, name: Seq<u8>, full: Seq<Record>, i: int)
    requires
        db.inv(),
        meta_at(db.records, name) is Some,
        meta_at(db.records, name).unwrap().key_type == KeyType::ListKey,
        is_full_run(db.records, data_prefix(meta_at(db.records, name).unwrap().id), full),
        0 <= i < full.len(),
    ensures
        ({
            let m = meta_at(db.records, name).unwrap();
            &&& m.list_left() + 1 + i < m.list_right()
            &&& full[i].0 == list_item_key(m.id, (m.list_left() + 1 + i) as i64)
        }),
    decreases i,
{
    let m = meta_at(db.records, name).unwrap();
    let s = db.records;
    let c = collection(s, m.id);
    let k = full[i].0;
    assert(s.contains_key(meta_key(name)));
    assert(meta_ok(s, name, db.next_key_id));
    assert(s.contains_key(full[i].0));
    assert(c.contains_key(k));
    lemma_list_key_of(m.id, k);
    let at = position_of(k);
    // The position is past that of the record before.
    if i > 0 {
        lemma_list_run_position(db, name, full, i - 1);
        assert(lex_lt(full[i - 1].0, full[i].0));
        lemma_list_key_order(m.id, (m.list_left() + i) as i64, at);
    }
    let target = (m.list_left() + 1 + i) as i64;
    assert(at >= target);
    // The item at the target position is in the walk, and not before `i`.
    if at > target {
        let t = list_item_key(m.id, target);
        lemma_list_key(m.id, target);
        assert(c.contains_key(t));
        assert(s.contains_key(t) && data_prefix(m.id).is_prefix_of(t));
        assert(listed(full, t));
        let j = choose|j: int| 0 <= j < full.len() && (#[trigger] full[j]).0 == t;
        lemma_list_key_order(m.id, target, at);
        if j < i {
            lemma_list_run_position(db, name, full, j);
            lemma_list_key(m.id, (m.list_left() + 1 + j) as i64);
        } else if j > i {
            assert(lex_lt(full[i].0, full[j].0));
            lemma_lex_asymmetric(k, t);
        } else {
            lemma_lex_irreflexive(k);
        }
    }
}

/// A walk over all records of a list gives its items from the first to the
/// last.
pub proof fn law_list_items(db: DbView, name: Seq<u8>, full: Seq<Record>)
    requires
        db.inv(),
        meta_at(db.records, name) is Some,
        meta_at(db.records, name).unwrap().key_type == KeyType::ListKey,
        is_full_run(db.records, data_prefix(meta_at(db.records, name).unwrap().id), full),
    ensures
        full.map_values(value_shower()) == list_view(db.records, name),
{
    let m = meta_at(db.records, name).unwrap();
    let s = db.records;
    let c = collection(s, m.id);
    let row = list_view(s, name);
    assert(s.contains_key(meta_key(name)));
    assert(meta_ok(s, name, db.next_key_id));
    if full.len() > 0 {
        lemma_list_run_position(db, name, full, full.len() - 1);
    }
    if full.len() < m.count {
        let target = (m.list_left() + 1 + full.len()) as i64;
        let t = list_item_key(m.id, target);
        lemma_list_key(m.id, target);
        assert(c.contains_key(t));
        assert(s.contains_key(t) && data_prefix(m.id).is_prefix_of(t));
        assert(listed(full, t));
        let j = choose|j: int| 0 <= j < full.len() && (#[trigger] full[j]).0 == t;
        lemma_list_run_position(db, name, full, j);
        lemma_list_key(m.id, (m.list_left() + 1 + j) as i64);
    }
    assert(full.len() == m.count);
    assert forall|i: int| 0 <= i < full.len() implies full.map_values(value_shower())[i]
        == row[i] by {
        lemma_list_run_position(db, name, full, i);
        assert(s.contains_key(full[i].0) && s[full[i].0] == full[i].1);
    }
    assert(full.map_values(value_shower()) =~= row);
}

/// What a listing of the items of a list gives is the row of its items.
pub proof fn law_list_items_are_the_row(db: DbView, name: Seq<u8>, out: Seq<Seq<u8>>)
    requires
        db.inv(),
        meta_at(db.records, name) matches Some(m) ==> m.key_type == KeyType::ListKey,
        shows(db.records, walk_prefix(db.records, name, None), value_shower(), out),
    ensures
        out == list_view(db.records, name),
{
    if meta_at(db.records, name) is Some {
        let m = meta_at(db.records, name).unwrap();
        if m.count != 0 {
            let full = law_full_run_exists(db.records, data_prefix(m.id));
            law_list_items(db, name, full);
        }
    }
    assert(out =~= list_view(db.records, name));
}

} // verus!
