use typed_store::codec::{
    encode_data_key_sorted_set_item_with_score, encode_data_key_sorted_set_item_without_score,
    encode_data_prefix,
};
use typed_store::{Database, KeyMeta, KvStore, MemStore, Options};

fn busy() -> Database<MemStore> {
    let mut db = Database::open(MemStore::new()).expect("an empty store opens");
    for i in 0u8..6 {
        db.map_put(b"map", &[i], &[i, i]).unwrap();
        db.set_add("set", &[i % 3]).unwrap();
        db.list_left_push("list", &[i]).unwrap();
        db.sorted_list_add("queue", &[i % 2], &[i]).unwrap();
        db.sorted_set_add("ranks", &[i % 4], &[i % 5]).unwrap();
    }
    db.map_delete(b"map", &[1]).unwrap();
    db.set_delete("set", &[0]).unwrap();
    db.list_right_pop("list").unwrap();
    db.list_left_pop("list").unwrap();
    db.sorted_list_left_pop("queue", None).unwrap();
    db.sorted_list_right_pop("queue", None).unwrap();
    db.sorted_set_delete("ranks", &[2]).unwrap();
    db
}

/// The number of records of the store whose keys start with `prefix`.
fn records_under(store: &MemStore, prefix: &[u8]) -> u64 {
    let mut n = 0;
    let mut next = store.first_at_or_after(prefix).unwrap();
    while let Some((k, _)) = next {
        if !k.starts_with(prefix) {
            break;
        }
        n += 1;
        next = store.first_after(&k).unwrap();
    }
    n
}

#[test]
fn counts_are_the_numbers_of_records() {
    let db = busy();
    let keys = db.keys().unwrap();
    assert_eq!(keys.len(), 5);
    for (name, meta) in keys {
        let prefix = encode_data_prefix(meta.id);
        let records = records_under(&db.store, &prefix);
        if name == "ranks" {
            let forward = records_under(&db.store, &[&prefix[..], &[0]].concat());
            let reverse = records_under(&db.store, &[&prefix[..], &[1]].concat());
            assert_eq!((forward, reverse), (meta.count, meta.count));
            assert_eq!(records, 2 * meta.count);
        } else {
            assert_eq!(records, meta.count, "{}", name);
        }
    }
    assert_eq!(db.map_count(b"map").unwrap(), 5);
    assert_eq!(db.set_count("set").unwrap(), 2);
    assert_eq!(db.list_count("list").unwrap(), 4);
    assert_eq!(db.sorted_list_count("queue").unwrap(), 4);
    assert_eq!(db.sorted_set_count("ranks").unwrap(), 4);
}

#[test]
fn list_ends_bracket_the_items() {
    let db = busy();
    let meta = db.get_meta(b"list").unwrap().unwrap();
    let (left, right) = meta.decode_list_extra();
    assert_eq!((left, right), (-5, 0));
    assert_eq!(meta.count as i64, right - left - 1);
    assert_eq!(
        db.list_items("list").unwrap(),
        vec![vec![4u8], vec![3u8], vec![2u8], vec![1u8]]
    );
}

#[test]
fn sorted_set_members_have_both_records() {
    let db = busy();
    let meta = db.get_meta(b"ranks").unwrap().unwrap();
    let members = db.sorted_set_items("ranks").unwrap();
    assert_eq!(members.len() as u64, meta.count);
    for (score, value) in members {
        let reverse = encode_data_key_sorted_set_item_without_score(meta.id, &value);
        assert_eq!(db.store.get(&reverse).unwrap(), Some(score.clone()));
        let forward = encode_data_key_sorted_set_item_with_score(meta.id, &score, &value);
        assert_eq!(db.store.get(&forward).unwrap(), Some(vec![0]));
        assert!(db.sorted_set_is_member("ranks", &value).unwrap());
    }
    assert!(!db.sorted_set_is_member("ranks", &[2]).unwrap());
}

#[test]
fn ids_are_handed_out_once() {
    let db = busy();
    let mut ids: Vec<u64> = Vec::new();
    db.for_each_key(|_k: &str, m: &KeyMeta| {
        ids.push(m.id);
        true
    })
    .unwrap();
    ids.sort();
    assert_eq!(ids, vec![1, 2, 3, 4, 5]);
}

#[test]
fn default_options_compact_every_300_and_drop_empty_metas() {
    let options = Options::default();
    assert_eq!(options.sorted_list_compact_deletes_count, 300);
    assert!(options.delete_meta_when_empty);
    let db = Database::open(MemStore::new()).unwrap();
    assert_eq!(db.options.sorted_list_compact_deletes_count, 300);
    assert!(db.options.delete_meta_when_empty);
}

#[test]
fn opening_refuses_a_store_with_a_record_it_cannot_read() {
    let mut store = MemStore::new();
    store.put(b"mm:broken", b"too short").unwrap();
    assert!(Database::open(store).is_err());
}
