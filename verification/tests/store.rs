use typed_store::{KvStore, MemStore};

fn filled() -> MemStore {
    let mut store = MemStore::new();
    for (k, v) in [("b", "2"), ("d", "4"), ("a", "1"), ("c", "3")] {
        store.put(k.as_bytes(), v.as_bytes()).unwrap();
    }
    store
}

fn pair(k: &str, v: &str) -> Option<(Vec<u8>, Vec<u8>)> {
    Some((k.as_bytes().to_vec(), v.as_bytes().to_vec()))
}

#[test]
fn store_reads_back_what_was_put() {
    let mut store = filled();
    assert_eq!(store.len(), 4);
    assert_eq!(store.get(b"c").unwrap(), Some(b"3".to_vec()));
    assert_eq!(store.get(b"e").unwrap(), None);
    store.put(b"c", b"three").unwrap();
    assert_eq!(store.len(), 4);
    assert_eq!(store.get(b"c").unwrap(), Some(b"three".to_vec()));
    store.delete(b"c").unwrap();
    store.delete(b"zz").unwrap();
    assert_eq!(store.len(), 3);
    assert_eq!(store.get(b"c").unwrap(), None);
}

#[test]
fn store_finds_the_neighbours_of_a_key() {
    let store = filled();
    assert_eq!(store.first_at_or_after(b"b").unwrap(), pair("b", "2"));
    assert_eq!(store.first_at_or_after(b"bb").unwrap(), pair("c", "3"));
    assert_eq!(store.first_at_or_after(b"").unwrap(), pair("a", "1"));
    assert_eq!(store.first_at_or_after(b"e").unwrap(), None);
    assert_eq!(store.first_after(b"b").unwrap(), pair("c", "3"));
    assert_eq!(store.first_after(b"bb").unwrap(), pair("c", "3"));
    assert_eq!(store.first_after(b"d").unwrap(), None);
    assert_eq!(store.last_before(b"b").unwrap(), pair("a", "1"));
    assert_eq!(store.last_before(b"bb").unwrap(), pair("b", "2"));
    assert_eq!(store.last_before(b"a").unwrap(), None);
    assert_eq!(store.last_before(b"zz").unwrap(), pair("d", "4"));
    assert_eq!(MemStore::new().first_at_or_after(b"").unwrap(), None);
    assert_eq!(MemStore::new().last_before(b"zz").unwrap(), None);
}

#[test]
fn store_remembers_the_compactions_asked_for() {
    let mut store = filled();
    assert_eq!(store.compaction_count(), 0);
    store.compact_range(b"a", b"c");
    store.compact_range(b"b", b"d");
    assert_eq!(store.compaction_count(), 2);
    assert_eq!(store.compaction(1), (b"b".to_vec(), b"d".to_vec()));
    assert_eq!(store.len(), 4);
}
