use typed_store::{Database, Error, KeyMeta, KeyType, KvStore, MemStore, StoreError};

fn fresh() -> Database<MemStore> {
    Database::open(MemStore::new()).expect("an empty store opens")
}

fn sample() -> Database<MemStore> {
    let mut db = fresh();
    db.map_put(b"beta", b"f", b"v").unwrap();
    db.set_add("alpha", b"x").unwrap();
    db.list_right_push("alps", b"y").unwrap();
    db.sorted_list_add("gamma", &[1], b"z").unwrap();
    db
}

#[test]
fn keys_come_in_bytewise_order_with_their_metas() {
    let db = sample();
    let keys = db.keys().unwrap();
    let names: Vec<&str> = keys.iter().map(|(k, _)| k.as_str()).collect();
    assert_eq!(names, vec!["alpha", "alps", "beta", "gamma"]);
    let ids: Vec<u64> = keys.iter().map(|(_, m)| m.id).collect();
    assert_eq!(ids, vec![2, 3, 1, 4]);
    assert_eq!(keys[1].1.key_type, KeyType::ListKey);
    assert_eq!(keys[1].1.count, 1);
    let some = db.keys_with_prefix("al").unwrap();
    let names: Vec<&str> = some.iter().map(|(k, _)| k.as_str()).collect();
    assert_eq!(names, vec!["alpha", "alps"]);
    assert!(db.keys_with_prefix("zeta").unwrap().is_empty());
    assert!(fresh().keys().unwrap().is_empty());
}

#[test]
fn for_each_key_stops_when_told_to() {
    let db = sample();
    let mut seen: Vec<(String, u64)> = Vec::new();
    let n = db
        .for_each_key(|k: &str, m: &KeyMeta| {
            seen.push((k.to_string(), m.id));
            true
        })
        .unwrap();
    assert_eq!(n, 4);
    assert_eq!(seen.len(), 4);
    assert_eq!(seen[0], ("alpha".to_string(), 2));
    let mut seen = 0;
    let n = db
        .for_each_key(|_k: &str, _m: &KeyMeta| {
            seen += 1;
            seen < 2
        })
        .unwrap();
    assert_eq!((n, seen), (2, 2));
}

#[test]
fn for_each_key_with_limit_counts_one_past_the_limit() {
    let db = sample();
    let mut seen = 0;
    let n = db
        .for_each_key_with_limit(2, |_k: &str, _m: &KeyMeta| {
            seen += 1;
            true
        })
        .unwrap();
    assert_eq!((n, seen), (3, 2));
    let mut seen = 0;
    let n = db
        .for_each_key_with_limit(4, |_k: &str, _m: &KeyMeta| {
            seen += 1;
            true
        })
        .unwrap();
    assert_eq!((n, seen), (4, 4));
    let mut seen = 0;
    let n = db
        .for_each_key_with_limit(0, |_k: &str, _m: &KeyMeta| {
            seen += 1;
            true
        })
        .unwrap();
    assert_eq!((n, seen), (1, 0));
}

#[test]
fn for_each_key_with_prefix_sees_only_that_prefix() {
    let db = sample();
    let mut seen: Vec<String> = Vec::new();
    let n = db
        .for_each_key_with_prefix("alp", |k: &str, _m: &KeyMeta| {
            seen.push(k.to_string());
            true
        })
        .unwrap();
    assert_eq!(n, 2);
    assert_eq!(seen, vec!["alpha".to_string(), "alps".to_string()]);
}

#[test]
fn a_key_that_is_not_text_fails_the_walk_over_the_keys() {
    let mut db = fresh();
    db.map_put(b"plain", b"f", b"v").unwrap();
    db.map_put(&[0xFF, 0xFE], b"f", b"v").unwrap();
    assert!(matches!(db.keys(), Err(Error::InvalidUtf8(_))));
    assert!(matches!(db.for_each_key(|_k: &str, _m: &KeyMeta| true), Err(Error::InvalidUtf8(_))));
    assert_eq!(db.keys_with_prefix("pl").unwrap().len(), 1);
    assert_eq!(db.map_get(&[0xFF, 0xFE], b"f").unwrap(), Some(b"v".to_vec()));
}

#[test]
fn the_walk_over_the_keys_fails_at_the_first_key_that_is_not_text() {
    let mut db = fresh();
    db.set_add("a", b"1").unwrap();
    db.set_add("b", b"2").unwrap();
    db.set_add("z", b"4").unwrap();
    db.map_put(&[b'c', 0xFF], b"f", b"3").unwrap();
    // The visitor is shown the keys before the one that is not text, in
    // order, and none after it.
    let mut seen: Vec<String> = Vec::new();
    let r = db.for_each_key(|k: &str, _m: &KeyMeta| {
        seen.push(k.to_string());
        true
    });
    assert!(matches!(r, Err(Error::InvalidUtf8(_))));
    assert_eq!(seen, vec!["a".to_string(), "b".to_string()]);
    // A visitor that stops before that key never meets it.
    let mut seen = 0;
    let r = db.for_each_key(|_k: &str, _m: &KeyMeta| {
        seen += 1;
        seen < 2
    });
    assert_eq!((r.unwrap(), seen), (2, 2));
    // Nor does a walk whose limit ends before it: the key is the third.
    assert_eq!(db.for_each_key_with_limit(2, |_k: &str, _m: &KeyMeta| true).unwrap(), 3);
    assert_eq!(db.for_each_key_with_limit(1, |_k: &str, _m: &KeyMeta| true).unwrap(), 2);
    assert!(matches!(
        db.for_each_key_with_limit(3, |_k: &str, _m: &KeyMeta| true),
        Err(Error::InvalidUtf8(_))
    ));
    assert!(matches!(
        db.for_each_key_with_limit(usize::MAX, |_k: &str, _m: &KeyMeta| true),
        Err(Error::InvalidUtf8(_))
    ));
    // Nor does a walk under a prefix that the key does not have.
    assert_eq!(db.for_each_key_with_prefix("b", |_k: &str, _m: &KeyMeta| true).unwrap(), 1);
    assert!(matches!(
        db.for_each_key_with_prefix("c", |_k: &str, _m: &KeyMeta| true),
        Err(Error::InvalidUtf8(_))
    ));
    assert_eq!(db.store.len(), 8);
}

#[test]
fn the_walk_over_a_map_fails_at_the_first_field_that_is_not_text() {
    let mut db = fresh();
    db.map_put(b"M", b"a", b"1").unwrap();
    db.map_put(b"M", b"b", b"2").unwrap();
    db.map_put(b"M", &[b'b', 0xC3, 0x28], b"3").unwrap();
    db.map_put(b"M", b"c", b"4").unwrap();
    let mut seen: Vec<String> = Vec::new();
    let r = db.map_for_each("M", |f: &str, _v: Vec<u8>| {
        seen.push(f.to_string());
        true
    });
    assert!(matches!(r, Err(Error::InvalidUtf8(_))));
    assert_eq!(seen, vec!["a".to_string(), "b".to_string()]);
    assert_eq!(db.map_for_each("M", |f: &str, _v: Vec<u8>| f != "b").unwrap(), 2);
    assert_eq!(db.map_for_each_with_prefix("M", "a", |_f: &str, _v: Vec<u8>| true).unwrap(), 1);
    assert!(matches!(
        db.map_for_each_with_prefix("M", "b", |_f: &str, _v: Vec<u8>| true),
        Err(Error::InvalidUtf8(_))
    ));
    assert_eq!(db.map_count(b"M").unwrap(), 4);
}

#[test]
fn map_walks_show_fields_in_order() {
    let mut db = fresh();
    db.map_put(b"M", b"b", b"2").unwrap();
    db.map_put(b"M", b"ab", b"1b").unwrap();
    db.map_put(b"M", b"a", b"1").unwrap();
    db.map_put(b"N", b"a", b"other").unwrap();
    assert_eq!(
        db.map_items("M").unwrap(),
        vec![
            ("a".to_string(), b"1".to_vec()),
            ("ab".to_string(), b"1b".to_vec()),
            ("b".to_string(), b"2".to_vec())
        ]
    );
    assert_eq!(
        db.map_items_with_prefix("M", "a").unwrap(),
        vec![("a".to_string(), b"1".to_vec()), ("ab".to_string(), b"1b".to_vec())]
    );
    let mut seen: Vec<String> = Vec::new();
    let n = db
        .map_for_each("M", |f: &str, _v: Vec<u8>| {
            seen.push(f.to_string());
            seen.len() < 2
        })
        .unwrap();
    assert_eq!(n, 2);
    assert_eq!(seen, vec!["a".to_string(), "ab".to_string()]);
    let mut seen: Vec<(String, Vec<u8>)> = Vec::new();
    let n = db
        .map_for_each_with_prefix("M", "b", |f: &str, v: Vec<u8>| {
            seen.push((f.to_string(), v));
            true
        })
        .unwrap();
    assert_eq!(n, 1);
    assert_eq!(seen, vec![("b".to_string(), b"2".to_vec())]);
    assert!(db.map_items("missing").unwrap().is_empty());
    assert_eq!(db.map_for_each("missing", |_f: &str, _v: Vec<u8>| true).unwrap(), 0);
}

#[test]
fn a_field_that_is_not_text_fails_the_walk_over_the_map() {
    let mut db = fresh();
    db.map_put(b"M", b"a", b"1").unwrap();
    db.map_put(b"M", &[0xC3, 0x28], b"2").unwrap();
    assert!(matches!(db.map_items("M"), Err(Error::InvalidUtf8(_))));
    assert_eq!(db.map_items_with_prefix("M", "a").unwrap().len(), 1);
}

#[test]
fn set_list_and_sorted_walks_show_what_they_hold() {
    let mut db = fresh();
    db.set_add("T", b"b").unwrap();
    db.set_add("T", b"a").unwrap();
    let mut members: Vec<Vec<u8>> = Vec::new();
    assert_eq!(
        db.set_for_each("T", |m: Vec<u8>| {
            members.push(m);
            true
        })
        .unwrap(),
        2
    );
    assert_eq!(members, vec![b"a".to_vec(), b"b".to_vec()]);
    assert_eq!(db.set_items("T").unwrap(), members);

    db.list_right_push("L", b"2").unwrap();
    db.list_left_push("L", b"1").unwrap();
    let mut items: Vec<Vec<u8>> = Vec::new();
    assert_eq!(
        db.list_for_each("L", |v: Vec<u8>| {
            items.push(v);
            true
        })
        .unwrap(),
        2
    );
    assert_eq!(items, vec![b"1".to_vec(), b"2".to_vec()]);

    db.sorted_list_add("Q", &[2], b"late").unwrap();
    db.sorted_list_add("Q", &[1], b"early").unwrap();
    let mut scored: Vec<(Vec<u8>, Vec<u8>)> = Vec::new();
    assert_eq!(
        db.sorted_list_for_each("Q", |item: (Vec<u8>, Vec<u8>)| {
            scored.push(item);
            true
        })
        .unwrap(),
        2
    );
    assert_eq!(scored, vec![(vec![1], b"early".to_vec()), (vec![2], b"late".to_vec())]);
    assert_eq!(db.sorted_list_items("Q").unwrap(), scored);

    db.sorted_set_add("S", &[0, 2], b"two").unwrap();
    db.sorted_set_add("S", &[0, 1], b"one").unwrap();
    let mut pairs: Vec<(Vec<u8>, Vec<u8>)> = Vec::new();
    assert_eq!(
        db.sorted_set_for_each("S", |item: (Vec<u8>, Vec<u8>)| {
            pairs.push(item);
            false
        })
        .unwrap(),
        1
    );
    assert_eq!(pairs, vec![(vec![0, 1], b"one".to_vec())]);
}

#[test]
fn for_each_data_shows_raw_records() {
    let mut db = fresh();
    db.map_put(b"M", b"ab", b"1").unwrap();
    db.map_put(b"M", b"b", b"2").unwrap();
    let mut seen: Vec<(Vec<u8>, Vec<u8>)> = Vec::new();
    let n = db
        .for_each_data("M", None, |k: Vec<u8>, v: Vec<u8>| {
            seen.push((k, v));
            true
        })
        .unwrap();
    assert_eq!(n, 2);
    assert_eq!(seen[0], ([b"d:".as_slice(), &1u64.to_be_bytes(), b"ab"].concat(), b"1".to_vec()));
    let n = db.for_each_data("M", Some("b"), |_k: Vec<u8>, _v: Vec<u8>| true).unwrap();
    assert_eq!(n, 1);
    assert_eq!(db.for_each_data("missing", None, |_k: Vec<u8>, _v: Vec<u8>| true).unwrap(), 0);
    // Of a sorted set, only the forward records are shown.
    db.sorted_set_add("S", &[1], b"m").unwrap();
    assert_eq!(db.for_each_data("S", None, |_k: Vec<u8>, _v: Vec<u8>| true).unwrap(), 1);
}

#[test]
fn sorted_list_with_a_score_that_begins_another_pops_by_key() {
    let mut db = fresh();
    db.sorted_list_add("Q", &[0x05, 0x00], b"a").unwrap();
    db.sorted_list_add("Q", &[0x05], b"b").unwrap();
    // The keys are the scores followed by the sequence numbers, and it is
    // the keys that are compared.
    assert_eq!(
        db.sorted_list_left_pop("Q", None).unwrap(),
        Some((vec![0x05, 0x00], b"a".to_vec()))
    );
    assert_eq!(db.sorted_list_left_pop("Q", None).unwrap(), Some((vec![0x05], b"b".to_vec())));
}

struct Failing {
    inner: MemStore,
    writes_left: u32,
}

impl Failing {
    fn spend(&mut self) -> Result<(), StoreError> {
        if self.writes_left == 0 {
            return Err(StoreError { message: "disk full".to_string() });
        }
        self.writes_left -= 1;
        Ok(())
    }
}

impl KvStore for Failing {
    fn get(&self, key: &[u8]) -> Result<Option<Vec<u8>>, StoreError> {
        self.inner.get(key)
    }

    fn put(&mut self, key: &[u8], value: &[u8]) -> Result<(), StoreError> {
        self.spend()?;
        self.inner.put(key, value)
    }

    fn delete(&mut self, key: &[u8]) -> Result<(), StoreError> {
        self.spend()?;
        self.inner.delete(key)
    }

    fn first_at_or_after(&self, from: &[u8]) -> Result<Option<(Vec<u8>, Vec<u8>)>, StoreError> {
        self.inner.first_at_or_after(from)
    }

    fn first_after(&self, from: &[u8]) -> Result<Option<(Vec<u8>, Vec<u8>)>, StoreError> {
        self.inner.first_after(from)
    }

    fn last_before(&self, bound: &[u8]) -> Result<Option<(Vec<u8>, Vec<u8>)>, StoreError> {
        self.inner.last_before(bound)
    }

    fn compact_range(&mut self, from: &[u8], to: &[u8]) {
        self.inner.compact_range(from, to)
    }
}

#[test]
fn a_failure_of_the_store_comes_back_as_a_backend_error() {
    let store = Failing { inner: MemStore::new(), writes_left: 3 };
    let mut db = Database::open(store).unwrap();
    db.map_put(b"M", b"f", b"v").unwrap();
    match db.map_put(b"M", b"g", b"w") {
        Err(Error::Backend(e)) => assert_eq!(e.message, "disk full"),
        other => panic!("expected a failure of the store, got {:?}", other),
    }
    let failed = db.set_add("T", b"x").unwrap_err();
    assert_eq!(failed.description(), "disk full");
    assert_eq!(db.map_get(b"M", b"f").unwrap(), Some(b"v".to_vec()));
}

#[test]
fn errors_describe_themselves() {
    assert_eq!(Error::message("no").description(), "no");
    let mut db = fresh();
    db.set_add("T", b"x").unwrap();
    let refused = db.list_left_push("T", b"x").unwrap_err();
    assert_eq!(refused.description(), "the key holds a collection of another type");
}
