use typed_store::{Database, Error, KeyType, MemStore, Options};

fn fresh() -> Database<MemStore> {
    Database::open(MemStore::new()).expect("an empty store opens")
}

fn with_options(options: Options) -> Database<MemStore> {
    Database::open_with_options(MemStore::new(), options).expect("an empty store opens")
}

#[test]
fn list_pushes_at_both_ends_keep_the_order() {
    let mut db = fresh();
    assert_eq!(db.list_right_push("L", b"a").unwrap(), 1);
    assert_eq!(db.list_right_push("L", b"b").unwrap(), 2);
    assert_eq!(db.list_left_push("L", b"z").unwrap(), 3);
    assert_eq!(
        db.list_items("L").unwrap(),
        vec![b"z".to_vec(), b"a".to_vec(), b"b".to_vec()]
    );
    assert_eq!(db.list_count("L").unwrap(), 3);
}

#[test]
fn list_left_pushes_through_position_zero_stay_in_order() {
    let mut db = fresh();
    for v in [b"1", b"2", b"3", b"4"] {
        db.list_left_push("L", v).unwrap();
    }
    db.list_right_push("L", b"0").unwrap();
    assert_eq!(
        db.list_items("L").unwrap(),
        vec![b"4".to_vec(), b"3".to_vec(), b"2".to_vec(), b"1".to_vec(), b"0".to_vec()]
    );
    let meta = db.get_meta(b"L").unwrap().unwrap();
    assert_eq!(meta.decode_list_extra(), (-4, 2));
    assert_eq!(meta.count, 5);
}

#[test]
fn list_drains_from_both_ends() {
    let mut db = fresh();
    for v in [b"a", b"b", b"c", b"d"] {
        db.list_right_push("L", v).unwrap();
    }
    assert_eq!(db.list_left_pop("L").unwrap(), Some(b"a".to_vec()));
    assert_eq!(db.list_right_pop("L").unwrap(), Some(b"d".to_vec()));
    assert_eq!(db.list_left_pop("L").unwrap(), Some(b"b".to_vec()));
    assert_eq!(db.list_right_pop("L").unwrap(), Some(b"c".to_vec()));
    assert_eq!(db.list_left_pop("L").unwrap(), None);
    assert_eq!(db.list_right_pop("L").unwrap(), None);
}

#[test]
fn list_pop_on_an_empty_list_changes_nothing() {
    let mut db = with_options(Options { sorted_list_compact_deletes_count: 300, delete_meta_when_empty: false });
    db.list_right_push("L", b"a").unwrap();
    db.list_left_pop("L").unwrap();
    let before = db.get_meta(b"L").unwrap().unwrap();
    let records = db.store.len();
    assert_eq!(db.list_left_pop("L").unwrap(), None);
    assert_eq!(db.list_right_pop("L").unwrap(), None);
    let after = db.get_meta(b"L").unwrap().unwrap();
    assert_eq!(before.get_bytes(), after.get_bytes());
    assert_eq!(db.store.len(), records);
    assert_eq!(db.list_left_pop("missing").unwrap(), None);
}

#[test]
fn list_meta_is_gone_after_the_pop_that_empties_it() {
    let mut db = fresh();
    db.list_right_push("L", b"a").unwrap();
    db.list_right_push("L", b"b").unwrap();
    db.list_left_pop("L").unwrap();
    assert!(db.get_meta(b"L").unwrap().is_some());
    db.list_right_pop("L").unwrap();
    assert!(db.get_meta(b"L").unwrap().is_none());
    assert_eq!(db.store.len(), 0);
}

#[test]
fn sorted_list_pops_by_score_then_by_age() {
    let mut db = fresh();
    assert_eq!(db.sorted_list_add("Q", &[0x00, 0x05], b"x").unwrap(), 1);
    assert_eq!(db.sorted_list_add("Q", &[0x00, 0x03], b"y").unwrap(), 2);
    assert_eq!(db.sorted_list_add("Q", &[0x00, 0x05], b"z").unwrap(), 3);
    assert_eq!(
        db.sorted_list_left_pop("Q", None).unwrap(),
        Some((vec![0x00, 0x03], b"y".to_vec()))
    );
    assert_eq!(
        db.sorted_list_left_pop("Q", None).unwrap(),
        Some((vec![0x00, 0x05], b"x".to_vec()))
    );
    assert_eq!(
        db.sorted_list_left_pop("Q", None).unwrap(),
        Some((vec![0x00, 0x05], b"z".to_vec()))
    );
    assert_eq!(db.sorted_list_left_pop("Q", None).unwrap(), None);
    assert_eq!(db.sorted_list_count("Q").unwrap(), 0);
}

#[test]
fn sorted_list_left_pop_leaves_scores_above_the_bound() {
    let mut db = fresh();
    db.sorted_list_add("Q", &[5], b"a").unwrap();
    db.sorted_list_add("Q", &[7], b"b").unwrap();
    let before = db.get_meta(b"Q").unwrap().unwrap().get_bytes();
    assert_eq!(db.sorted_list_left_pop("Q", Some(&[4])).unwrap(), None);
    assert_eq!(db.get_meta(b"Q").unwrap().unwrap().get_bytes(), before);
    assert_eq!(db.sorted_list_count("Q").unwrap(), 2);
    assert_eq!(
        db.sorted_list_left_pop("Q", Some(&[5])).unwrap(),
        Some((vec![5], b"a".to_vec()))
    );
    assert_eq!(db.sorted_list_left_pop("Q", Some(&[6])).unwrap(), None);
}

#[test]
fn sorted_list_right_pop_takes_the_greatest() {
    let mut db = fresh();
    db.sorted_list_add("Q", &[1], b"a").unwrap();
    db.sorted_list_add("Q", &[3], b"c").unwrap();
    db.sorted_list_add("Q", &[2], b"b").unwrap();
    db.sorted_list_add("R", &[9], b"other").unwrap();
    assert_eq!(db.sorted_list_right_pop("Q", Some(&[4])).unwrap(), None);
    assert_eq!(
        db.sorted_list_right_pop("Q", Some(&[3])).unwrap(),
        Some((vec![3], b"c".to_vec()))
    );
    assert_eq!(
        db.sorted_list_right_pop("Q", None).unwrap(),
        Some((vec![2], b"b".to_vec()))
    );
    assert_eq!(db.sorted_list_count("Q").unwrap(), 1);
    assert_eq!(db.sorted_list_count("R").unwrap(), 1);
    assert_eq!(
        db.sorted_list_items("Q").unwrap(),
        vec![(vec![1], b"a".to_vec())]
    );
}

#[test]
fn sorted_list_right_pop_is_not_misled_by_the_next_collection() {
    let mut db = fresh();
    db.sorted_list_add("Q", &[1], b"a").unwrap();
    // The next id's collection has a record whose key is exactly its prefix.
    db.map_put(b"M", b"", b"empty field").unwrap();
    assert_eq!(
        db.sorted_list_right_pop("Q", None).unwrap(),
        Some((vec![1], b"a".to_vec()))
    );
}

#[test]
fn sorted_list_asks_for_a_compaction_every_so_many_pops() {
    let mut db = with_options(Options { sorted_list_compact_deletes_count: 2, delete_meta_when_empty: false });
    for i in 0u8..5 {
        db.sorted_list_add("Q", &[i], &[i]).unwrap();
    }
    db.sorted_list_left_pop("Q", None).unwrap();
    assert_eq!(db.store.compaction_count(), 0);
    assert_eq!(db.get_meta(b"Q").unwrap().unwrap().decode_sorted_list_extra(), (5, 1, 0));
    db.sorted_list_left_pop("Q", None).unwrap();
    assert_eq!(db.store.compaction_count(), 1);
    assert_eq!(db.get_meta(b"Q").unwrap().unwrap().decode_sorted_list_extra(), (5, 0, 0));
    let (from, to) = db.store.compaction(0);
    assert_eq!(from, [b"d:".as_slice(), &1u64.to_be_bytes()].concat());
    assert_eq!(to, [b"d:".as_slice(), &1u64.to_be_bytes(), &[1], &1u64.to_be_bytes()].concat());
    db.sorted_list_right_pop("Q", None).unwrap();
    assert_eq!(db.get_meta(b"Q").unwrap().unwrap().decode_sorted_list_extra(), (5, 0, 1));
    db.sorted_list_right_pop("Q", None).unwrap();
    assert_eq!(db.store.compaction_count(), 2);
    let (from, to) = db.store.compaction(1);
    assert_eq!(from, [b"d:".as_slice(), &1u64.to_be_bytes(), &[3], &3u64.to_be_bytes()].concat());
    assert_eq!(to, [b"d:".as_slice(), &2u64.to_be_bytes()].concat());
}

#[test]
fn sorted_set_members_come_and_go() {
    let mut db = fresh();
    assert_eq!(db.sorted_set_add("S", &[0, 1], b"a").unwrap(), 1);
    assert_eq!(db.sorted_set_add("S", &[0, 2], b"b").unwrap(), 2);
    assert!(db.sorted_set_is_member("S", b"a").unwrap());
    assert!(db.sorted_set_delete("S", b"a").unwrap());
    assert!(!db.sorted_set_is_member("S", b"a").unwrap());
    assert_eq!(db.sorted_set_count("S").unwrap(), 1);
    assert!(!db.sorted_set_delete("S", b"a").unwrap());
    assert!(!db.sorted_set_delete("missing", b"a").unwrap());
    assert_eq!(db.store.len(), 3);
}

#[test]
fn sorted_set_reads_in_score_order_from_either_end() {
    let mut db = fresh();
    db.sorted_set_add("S", &[0, 9], b"i").unwrap();
    db.sorted_set_add("S", &[0, 1], b"a").unwrap();
    db.sorted_set_add("S", &[0, 5], b"e").unwrap();
    db.sorted_set_add("S", &[0, 5], b"d").unwrap();
    // A member with an empty value, whose reverse key is the bare prefix.
    db.sorted_set_add("S", &[0, 7], b"").unwrap();
    let all = vec![
        (vec![0, 1], b"a".to_vec()),
        (vec![0, 5], b"d".to_vec()),
        (vec![0, 5], b"e".to_vec()),
        (vec![0, 7], b"".to_vec()),
        (vec![0, 9], b"i".to_vec()),
    ];
    assert_eq!(db.sorted_set_left("S", None, usize::MAX).unwrap(), all);
    assert_eq!(db.sorted_set_items("S").unwrap(), all);
    assert_eq!(db.sorted_set_left("S", Some(&[0, 5]), 10).unwrap(), all[..3].to_vec());
    assert_eq!(db.sorted_set_left("S", None, 2).unwrap(), all[..2].to_vec());
    assert_eq!(db.sorted_set_left("S", None, 0).unwrap(), vec![]);
    let mut back = all.clone();
    back.reverse();
    assert_eq!(db.sorted_set_right("S", None, usize::MAX).unwrap(), back);
    assert_eq!(db.sorted_set_right("S", Some(&[0, 6]), 10).unwrap(), back[..2].to_vec());
    assert_eq!(db.sorted_set_right("S", None, 1).unwrap(), back[..1].to_vec());
    assert_eq!(db.sorted_set_left("missing", None, 5).unwrap(), vec![]);
    assert_eq!(db.sorted_set_right("missing", None, 5).unwrap(), vec![]);
}

#[test]
fn sorted_set_add_again_moves_the_member() {
    let mut db = fresh();
    assert_eq!(db.sorted_set_add("S", &[3], b"m").unwrap(), 1);
    assert_eq!(db.sorted_set_add("S", &[1], b"m").unwrap(), 1);
    assert_eq!(db.sorted_set_add("S", &[1], b"m").unwrap(), 1);
    assert_eq!(db.sorted_set_count("S").unwrap(), 1);
    assert_eq!(db.sorted_set_left("S", None, 10).unwrap(), vec![(vec![1], b"m".to_vec())]);
    // The metadata record, one forward record and one reverse record.
    assert_eq!(db.store.len(), 3);
}

#[test]
fn sorted_set_rejects_a_score_of_another_length() {
    let mut db = fresh();
    db.sorted_set_add("S", &[0, 1], b"a").unwrap();
    match db.sorted_set_add("S", &[1], b"b") {
        Err(Error::Message(text)) => {
            assert_eq!(text, "invalid score length, expected 2 bytes but got 1 bytes");
        }
        other => panic!("expected a refusal, got {:?}", other),
    }
    assert!(matches!(db.sorted_set_add("S", &[], b"b"), Err(Error::Message(_))));
    assert_eq!(db.sorted_set_add("S", &[0, 2], b"b").unwrap(), 2);
    assert_eq!(db.sorted_set_count("S").unwrap(), 2);
    assert_eq!(db.get_meta(b"S").unwrap().unwrap().decode_sorted_set_extra(), (0, 2));
}

#[test]
fn sorted_set_rejects_a_score_of_more_than_255_bytes() {
    let mut db = fresh();
    let refused = db.sorted_set_add("T", &[0; 256], b"b").unwrap_err();
    assert_eq!(refused.description(), "a score has 255 bytes at the most");
    assert!(db.get_meta(b"T").unwrap().is_none());
    assert_eq!(db.sorted_set_add("T", &[7; 255], b"b").unwrap(), 1);
    assert_eq!(db.get_meta(b"T").unwrap().unwrap().decode_sorted_set_extra(), (0, 255));
    assert!(matches!(db.sorted_set_add("T", &[0; 256], b"c"), Err(Error::Message(_))));
}

#[test]
fn sorted_set_takes_the_empty_score_while_no_length_is_stored() {
    let mut db = fresh();
    assert_eq!(db.sorted_set_add("T", &[], b"b").unwrap(), 1);
    assert_eq!(db.sorted_set_add("T", &[], b"a").unwrap(), 2);
    assert_eq!(db.get_meta(b"T").unwrap().unwrap().decode_sorted_set_extra(), (0, 0));
    assert!(db.sorted_set_is_member("T", b"a").unwrap());
    assert_eq!(
        db.sorted_set_left("T", None, 10).unwrap(),
        vec![(vec![], b"a".to_vec()), (vec![], b"b".to_vec())]
    );
    assert_eq!(
        db.sorted_set_right("T", Some(&[]), 10).unwrap(),
        vec![(vec![], b"b".to_vec()), (vec![], b"a".to_vec())]
    );
    assert!(db.sorted_set_delete("T", b"a").unwrap());
    assert!(db.sorted_set_delete("T", b"b").unwrap());
    assert!(db.get_meta(b"T").unwrap().is_none());
    assert_eq!(db.sorted_set_add("T", &[1], b"c").unwrap(), 1);
}

#[test]
fn sorted_set_stores_the_first_length_that_is_not_zero() {
    let mut db = fresh();
    assert_eq!(db.sorted_set_add("T", &[], b"b").unwrap(), 1);
    assert_eq!(db.sorted_set_add("T", &[], b"a").unwrap(), 2);
    // No length is stored yet, though the set has members.
    assert_eq!(db.sorted_set_add("T", &[1], b"c").unwrap(), 3);
    assert_eq!(db.get_meta(b"T").unwrap().unwrap().decode_sorted_set_extra(), (0, 1));
    assert_eq!(db.sorted_set_count("T").unwrap(), 3);
    match db.sorted_set_add("T", &[], b"d") {
        Err(Error::Message(text)) => {
            assert_eq!(text, "invalid score length, expected 1 bytes but got 0 bytes");
        }
        other => panic!("expected a refusal, got {:?}", other),
    }
    match db.sorted_set_add("T", &[1, 2], b"d") {
        Err(Error::Message(text)) => {
            assert_eq!(text, "invalid score length, expected 1 bytes but got 2 bytes");
        }
        other => panic!("expected a refusal, got {:?}", other),
    }
    assert_eq!(db.sorted_set_count("T").unwrap(), 3);
    assert!(!db.sorted_set_is_member("T", b"d").unwrap());
    // The old members stay members, and can be deleted.
    assert!(db.sorted_set_is_member("T", b"a").unwrap());
    assert!(db.sorted_set_is_member("T", b"b").unwrap());
    assert!(db.sorted_set_is_member("T", b"c").unwrap());
    // The keys are read with the stored length from now on.
    assert_eq!(
        db.sorted_set_left("T", None, 10).unwrap(),
        vec![(vec![1], b"c".to_vec()), (b"a".to_vec(), vec![]), (b"b".to_vec(), vec![])]
    );
    assert!(db.sorted_set_delete("T", b"a").unwrap());
    assert!(db.sorted_set_delete("T", b"b").unwrap());
    assert_eq!(db.sorted_set_left("T", None, 10).unwrap(), vec![(vec![1], b"c".to_vec())]);
    assert_eq!(db.store.len(), 3);
    assert_eq!(db.sorted_set_count("T").unwrap(), 1);
}

#[test]
fn sorted_set_moves_a_member_from_the_empty_score_to_a_first_length() {
    let mut db = fresh();
    assert_eq!(db.sorted_set_add("T", &[], b"m").unwrap(), 1);
    assert_eq!(db.sorted_set_add("T", &[4, 5], b"m").unwrap(), 1);
    assert_eq!(db.get_meta(b"T").unwrap().unwrap().decode_sorted_set_extra(), (0, 2));
    assert_eq!(db.sorted_set_left("T", None, 10).unwrap(), vec![(vec![4, 5], b"m".to_vec())]);
    // The metadata record, one record by score and one by member.
    assert_eq!(db.store.len(), 3);
    assert!(matches!(db.sorted_set_add("T", &[], b"m"), Err(Error::Message(_))));
}

#[test]
fn sorted_set_members_of_two_lengths_can_share_the_record_by_score() {
    let mut db = fresh();
    assert_eq!(db.sorted_set_add("T", &[], &[1, 2, 98]).unwrap(), 1);
    assert_eq!(db.sorted_set_add("T", &[1, 2], &[98]).unwrap(), 2);
    assert_eq!(db.get_meta(b"T").unwrap().unwrap().decode_sorted_set_extra(), (0, 2));
    assert!(db.sorted_set_is_member("T", &[1, 2, 98]).unwrap());
    assert!(db.sorted_set_is_member("T", &[98]).unwrap());
    // The metadata record, two records by member, and one record by score.
    assert_eq!(db.store.len(), 4);
    assert_eq!(db.sorted_set_left("T", None, 10).unwrap(), vec![(vec![1, 2], vec![98])]);
    assert!(db.sorted_set_delete("T", &[1, 2, 98]).unwrap());
    assert_eq!(db.sorted_set_count("T").unwrap(), 1);
    assert!(db.sorted_set_is_member("T", &[98]).unwrap());
    assert_eq!(db.sorted_set_left("T", None, 10).unwrap(), vec![]);
    assert!(db.sorted_set_delete("T", &[98]).unwrap());
    assert!(db.get_meta(b"T").unwrap().is_none());
    assert_eq!(db.store.len(), 0);
}

#[test]
fn sorted_set_that_was_emptied_but_kept_takes_a_first_score_again() {
    let mut db = with_options(Options { sorted_list_compact_deletes_count: 300, delete_meta_when_empty: false });
    db.sorted_set_add("T", &[], b"a").unwrap();
    db.sorted_set_delete("T", b"a").unwrap();
    assert_eq!(db.get_meta(b"T").unwrap().unwrap().decode_sorted_set_extra(), (1, 0));
    assert_eq!(db.sorted_set_add("T", &[3, 4], b"b").unwrap(), 1);
    assert_eq!(db.get_meta(b"T").unwrap().unwrap().decode_sorted_set_extra(), (1, 2));
    // A length that was stored stays, also when the set is empty again.
    db.sorted_set_delete("T", b"b").unwrap();
    assert!(matches!(db.sorted_set_add("T", &[], b"c"), Err(Error::Message(_))));
    assert_eq!(db.sorted_set_add("T", &[5, 6], b"c").unwrap(), 1);
}

#[test]
fn sorted_set_asks_for_a_compaction_every_so_many_deletes() {
    let mut db = with_options(Options { sorted_list_compact_deletes_count: 3, delete_meta_when_empty: true });
    for i in 0u8..4 {
        db.sorted_set_add("S", &[i], &[i]).unwrap();
    }
    db.sorted_set_delete("S", &[0]).unwrap();
    db.sorted_set_delete("S", &[1]).unwrap();
    assert_eq!(db.store.compaction_count(), 0);
    assert_eq!(db.get_meta(b"S").unwrap().unwrap().decode_sorted_set_extra(), (2, 1));
    db.sorted_set_delete("S", &[2]).unwrap();
    assert_eq!(db.store.compaction_count(), 1);
    assert_eq!(db.get_meta(b"S").unwrap().unwrap().decode_sorted_set_extra(), (0, 1));
    let (from, to) = db.store.compaction(0);
    assert_eq!(from, [b"d:".as_slice(), &1u64.to_be_bytes()].concat());
    assert_eq!(to, [b"d:".as_slice(), &2u64.to_be_bytes()].concat());
}

#[test]
fn map_put_twice_keeps_one_field() {
    let mut db = fresh();
    db.map_put(b"M", b"k", b"v1").unwrap();
    assert_eq!(db.map_count(b"M").unwrap(), 1);
    db.map_put(b"M", b"k", b"v2").unwrap();
    assert_eq!(db.map_count(b"M").unwrap(), 1);
    assert_eq!(db.map_get(b"M", b"k").unwrap(), Some(b"v2".to_vec()));
}

#[test]
fn map_get_returns_what_map_put_stored() {
    let mut db = fresh();
    db.map_put(b"M", b"field", b"value").unwrap();
    db.map_put(b"M", b"", b"under the empty field").unwrap();
    db.map_put(b"N", b"field", b"other").unwrap();
    assert_eq!(db.map_get(b"M", b"field").unwrap(), Some(b"value".to_vec()));
    assert_eq!(db.map_get(b"M", b"").unwrap(), Some(b"under the empty field".to_vec()));
    assert_eq!(db.map_get(b"N", b"field").unwrap(), Some(b"other".to_vec()));
    assert_eq!(db.map_get(b"M", b"absent").unwrap(), None);
    assert_eq!(db.map_get(b"missing", b"field").unwrap(), None);
    assert!(db.get_meta(b"missing").unwrap().is_none());
}

#[test]
fn map_delete_counts_down_only_for_fields_that_were_there() {
    let mut db = fresh();
    db.map_put(b"M", b"a", b"1").unwrap();
    db.map_put(b"M", b"b", b"2").unwrap();
    assert!(!db.map_delete(b"M", b"c").unwrap());
    assert_eq!(db.map_count(b"M").unwrap(), 2);
    assert!(db.map_delete(b"M", b"a").unwrap());
    assert_eq!(db.map_count(b"M").unwrap(), 1);
    assert!(!db.map_delete(b"missing", b"a").unwrap());
}

#[test]
fn set_add_twice_is_new_once() {
    let mut db = fresh();
    assert!(db.set_add("T", b"x").unwrap());
    assert!(!db.set_add("T", b"x").unwrap());
    assert_eq!(db.set_count("T").unwrap(), 1);
    assert!(db.set_is_member("T", b"x").unwrap());
    assert!(!db.set_is_member("T", b"y").unwrap());
    assert!(!db.set_is_member("missing", b"x").unwrap());
    assert_eq!(db.set_items("T").unwrap(), vec![b"x".to_vec()]);
}

#[test]
fn set_key_gets_a_new_id_after_it_was_emptied() {
    let mut db = fresh();
    assert!(db.set_add("T", b"x").unwrap());
    let first = db.get_meta(b"T").unwrap().unwrap().id;
    assert!(db.set_delete("T", b"x").unwrap());
    assert!(db.get_meta(b"T").unwrap().is_none());
    assert!(db.set_add("T", b"x").unwrap());
    let second = db.get_meta(b"T").unwrap().unwrap().id;
    assert!(second > first);
    assert_eq!((first, second), (1, 2));
}

#[test]
fn set_key_in_use_gets_a_new_id_after_it_was_emptied() {
    let mut db = fresh();
    assert!(db.set_add("T", b"x").unwrap());
    assert!(db.set_add("U", b"u").unwrap());
    assert!(db.set_add("T", b"y").unwrap());
    let first = db.get_meta(b"T").unwrap().unwrap().id;
    // Deleting one of two members leaves the key in use, under its id.
    assert!(db.set_delete("T", b"y").unwrap());
    assert_eq!(db.get_meta(b"T").unwrap().unwrap().id, first);
    assert!(!db.set_add("T", b"x").unwrap());
    assert!(db.set_delete("T", b"x").unwrap());
    assert!(db.get_meta(b"T").unwrap().is_none());
    assert!(db.set_add("T", b"x").unwrap());
    let second = db.get_meta(b"T").unwrap().unwrap().id;
    assert_eq!((first, second), (1, 3));
}

#[test]
fn set_key_is_not_used_again_when_no_id_is_left() {
    let mut db = fresh();
    db.next_key_id = u64::MAX - 1;
    assert!(db.set_add("T", b"x").unwrap());
    assert_eq!(db.get_meta(b"T").unwrap().unwrap().id, u64::MAX - 1);
    assert!(db.set_delete("T", b"x").unwrap());
    assert!(db.get_meta(b"T").unwrap().is_none());
    match db.set_add("T", b"x") {
        Err(Error::Message(text)) => assert_eq!(text, "no key id is left"),
        other => panic!("expected a refusal, got {:?}", other),
    }
    assert!(db.get_meta(b"T").unwrap().is_none());
    assert_eq!(db.store.len(), 0);
}

#[test]
fn set_key_keeps_its_id_when_empty_metas_stay() {
    let mut db = with_options(Options { sorted_list_compact_deletes_count: 300, delete_meta_when_empty: false });
    db.set_add("T", b"x").unwrap();
    db.set_delete("T", b"x").unwrap();
    let meta = db.get_meta(b"T").unwrap().unwrap();
    assert_eq!((meta.id, meta.count), (1, 0));
    db.set_add("T", b"y").unwrap();
    assert_eq!(db.get_meta(b"T").unwrap().unwrap().id, 1);
}

#[test]
fn reopening_continues_after_the_greatest_id() {
    let mut db = fresh();
    db.set_add("a", b"1").unwrap();
    db.list_right_push("b", b"2").unwrap();
    db.map_put(b"c", b"f", b"3").unwrap();
    assert_eq!(db.get_meta(b"c").unwrap().unwrap().id, 3);
    // Drop the key with the greatest id but one, so the greatest survives.
    db.delete_all("b").unwrap();
    let mut again = Database::open(db.store).unwrap();
    again.set_add("d", b"4").unwrap();
    assert_eq!(again.get_meta(b"d").unwrap().unwrap().id, 4);
    assert_eq!(again.get_meta(b"a").unwrap().unwrap().id, 1);
}

#[test]
fn a_key_has_one_type() {
    let mut db = fresh();
    db.list_right_push("k", b"v").unwrap();
    assert!(matches!(db.map_put(b"k", b"f", b"v"), Err(Error::Message(_))));
    assert!(matches!(db.map_get(b"k", b"f"), Err(Error::Message(_))));
    assert!(matches!(db.set_add("k", b"v"), Err(Error::Message(_))));
    assert!(matches!(db.sorted_list_add("k", &[1], b"v"), Err(Error::Message(_))));
    assert!(matches!(db.sorted_set_add("k", &[1], b"v"), Err(Error::Message(_))));
    assert!(matches!(db.sorted_list_left_pop("k", None), Err(Error::Message(_))));
    assert!(matches!(db.sorted_set_left("k", None, 1), Err(Error::Message(_))));
    assert_eq!(db.get_meta(b"k").unwrap().unwrap().key_type, KeyType::ListKey);
    assert_eq!(db.list_count("k").unwrap(), 1);
    db.set_add("s", b"v").unwrap();
    assert!(matches!(db.list_left_pop("s"), Err(Error::Message(_))));
    assert!(matches!(db.list_left_push("s", b"v"), Err(Error::Message(_))));
}

#[test]
fn delete_all_removes_every_record_of_the_key() {
    let mut db = fresh();
    db.sorted_set_add("S", &[1], b"a").unwrap();
    db.sorted_set_add("S", &[2], b"b").unwrap();
    db.map_put(b"M", b"f", b"v").unwrap();
    assert_eq!(db.delete_all("S").unwrap(), 4);
    assert!(db.get_meta(b"S").unwrap().is_none());
    assert_eq!(db.store.len(), 2);
    assert_eq!(db.store.compaction_count(), 1);
    assert_eq!(db.delete_all("S").unwrap(), 0);
    assert_eq!(db.map_get(b"M", b"f").unwrap(), Some(b"v".to_vec()));
}
