use kvs::{KvError, KvStore, LogCommand};

fn fresh() -> KvStore {
    KvStore::new().ok().unwrap()
}

fn reopen(store: &KvStore) -> KvStore {
    KvStore::open(store.log_bytes().to_vec()).ok().unwrap()
}

fn set(store: &mut KvStore, key: &str, value: &str) {
    assert_eq!(store.set(key.to_string(), value.to_string()), Ok(()));
}

fn get(store: &KvStore, key: &str) -> Option<String> {
    store.get(key.to_string()).unwrap()
}

fn value(text: &str) -> Option<String> {
    Some(text.to_string())
}

#[test]
fn new_store_is_empty() {
    let store = fresh();
    assert_eq!(store.log_bytes().len(), 0);
    assert_eq!(get(&store, "a"), None);
}

#[test]
fn set_then_get() {
    let mut store = fresh();
    set(&mut store, "a", "1");
    assert_eq!(get(&store, "a"), value("1"));
    assert_eq!(get(&store, "b"), None);
}

#[test]
fn set_writes_one_put_to_the_log() {
    let mut store = fresh();
    set(&mut store, "a", "1");
    let expected =
        kvs::codec::encode(&LogCommand::Put("a".to_string(), "1".to_string())).unwrap();
    assert_eq!(store.log_bytes(), &expected[..]);
}

#[test]
fn remove_writes_one_removal_to_the_log() {
    let mut store = fresh();
    set(&mut store, "a", "1");
    let before = store.log_bytes().to_vec();
    assert_eq!(store.remove("a".to_string()), Ok(()));
    let mut expected = before;
    expected.extend_from_slice(&kvs::codec::encode(&LogCommand::Remove("a".to_string())).unwrap());
    assert_eq!(store.log_bytes(), &expected[..]);
    assert_eq!(get(&store, "a"), None);
}

#[test]
fn set_remove_reopen() {
    let mut store = fresh();
    set(&mut store, "a", "1");
    set(&mut store, "b", "2");
    assert_eq!(store.remove("a".to_string()), Ok(()));
    let store = reopen(&store);
    assert_eq!(get(&store, "a"), None);
    assert_eq!(get(&store, "b"), value("2"));
}

#[test]
fn last_writer_wins_across_reopen() {
    let mut store = fresh();
    set(&mut store, "k", "v1");
    set(&mut store, "k", "v2");
    assert_eq!(get(&store, "k"), value("v2"));
    let store = reopen(&store);
    assert_eq!(get(&store, "k"), value("v2"));
}

#[test]
fn remove_missing_on_empty_store() {
    let mut store = fresh();
    assert_eq!(store.remove("missing".to_string()), Err(KvError::NonExistentKey));
    assert_eq!(store.log_bytes().len(), 0);
    assert_eq!(get(&store, "missing"), None);
    let store = reopen(&store);
    assert_eq!(get(&store, "missing"), None);
}

#[test]
fn remove_of_an_absent_key_leaves_the_log_and_the_other_keys() {
    let mut store = fresh();
    set(&mut store, "a", "1");
    set(&mut store, "b", "2");
    let before = store.log_bytes().to_vec();
    assert_eq!(store.remove("c".to_string()), Err(KvError::NonExistentKey));
    assert_eq!(store.log_bytes(), &before[..]);
    assert_eq!(get(&store, "a"), value("1"));
    assert_eq!(get(&store, "b"), value("2"));
}

#[test]
fn remove_twice_fails_the_second_time() {
    let mut store = fresh();
    set(&mut store, "a", "1");
    assert_eq!(store.remove("a".to_string()), Ok(()));
    let before = store.log_bytes().to_vec();
    assert_eq!(store.remove("a".to_string()), Err(KvError::NonExistentKey));
    assert_eq!(store.log_bytes(), &before[..]);
}

#[test]
fn replay_gives_the_last_write_of_each_key() {
    let mut store = fresh();
    set(&mut store, "a", "1");
    set(&mut store, "b", "2");
    set(&mut store, "a", "3");
    assert_eq!(store.remove("b".to_string()), Ok(()));
    set(&mut store, "c", "4");
    set(&mut store, "b", "5");
    assert_eq!(store.remove("c".to_string()), Ok(()));
    assert_eq!(store.remove("c".to_string()), Err(KvError::NonExistentKey));
    set(&mut store, "", "");
    for store in [reopen(&store), store] {
        assert_eq!(get(&store, "a"), value("3"));
        assert_eq!(get(&store, "b"), value("5"));
        assert_eq!(get(&store, "c"), None);
        assert_eq!(get(&store, ""), value(""));
        assert_eq!(get(&store, "d"), None);
    }
}

#[test]
fn reopened_store_goes_on_where_the_log_ends() {
    let mut store = fresh();
    set(&mut store, "a", "1");
    let mut store = reopen(&store);
    set(&mut store, "b", "2");
    set(&mut store, "a", "9");
    let store = reopen(&store);
    assert_eq!(get(&store, "a"), value("9"));
    assert_eq!(get(&store, "b"), value("2"));
}

#[test]
fn open_of_a_log_cut_at_any_byte_is_a_prefix_or_corrupt() {
    let mut store = fresh();
    set(&mut store, "a", "1");
    set(&mut store, "b", "22");
    assert_eq!(store.remove("a".to_string()), Ok(()));
    let bytes = store.log_bytes().to_vec();
    let ends = [0usize, 22, 45, 58];
    assert_eq!(bytes.len(), 58);
    for keep in 0..=bytes.len() {
        match KvStore::open(bytes[..keep].to_vec()) {
            Ok(cut) => {
                assert!(ends.contains(&keep));
                assert_eq!(cut.log_bytes(), &bytes[..keep]);
                assert_eq!(get(&cut, "a"), if keep == 22 || keep == 45 { value("1") } else { None });
                assert_eq!(get(&cut, "b"), if keep >= 45 { value("22") } else { None });
            }
            Err(e) => {
                assert!(!ends.contains(&keep));
                assert_eq!(e, KvError::CorruptRecord);
            }
        }
    }
}

#[test]
fn open_of_an_unknown_tag_is_corrupt() {
    let mut store = fresh();
    set(&mut store, "a", "1");
    let mut bytes = store.log_bytes().to_vec();
    bytes.extend_from_slice(&[5, 0, 0, 0, 0, 0, 0, 0, 0, 0, 0, 0]);
    assert_eq!(KvStore::open(bytes).err(), Some(KvError::CorruptRecord));
}

#[test]
fn open_of_bad_utf8_is_a_serialization_error() {
    let mut store = fresh();
    set(&mut store, "a", "1");
    let mut bytes = store.log_bytes().to_vec();
    bytes[12] = 0x80;
    assert_eq!(KvStore::open(bytes).err(), Some(KvError::SerializationError));
}

#[test]
fn compact_keeps_one_put_for_each_key() {
    let mut store = fresh();
    set(&mut store, "a", "1");
    set(&mut store, "b", "2");
    set(&mut store, "a", "3");
    set(&mut store, "c", "4");
    assert_eq!(store.remove("b".to_string()), Ok(()));
    assert_eq!(store.compact(), Ok(()));

    let mut expected = fresh();
    set(&mut expected, "a", "3");
    set(&mut expected, "c", "4");
    assert_eq!(store.log_bytes(), expected.log_bytes());
    assert_eq!(get(&store, "a"), value("3"));
    assert_eq!(get(&store, "b"), None);
    assert_eq!(get(&store, "c"), value("4"));
}

#[test]
fn compact_twice_is_compact_once() {
    let mut store = fresh();
    set(&mut store, "a", "1");
    set(&mut store, "b", "2");
    set(&mut store, "a", "3");
    assert_eq!(store.remove("b".to_string()), Ok(()));
    set(&mut store, "d", "");
    assert_eq!(store.compact(), Ok(()));
    let once = store.log_bytes().to_vec();
    assert_eq!(store.compact(), Ok(()));
    assert_eq!(store.log_bytes(), &once[..]);
    let replayed = reopen(&store);
    for key in ["a", "b", "d", "e"] {
        assert_eq!(get(&replayed, key), get(&store, key));
    }
    assert_eq!(get(&store, "a"), value("3"));
    assert_eq!(get(&store, "d"), value(""));
}

#[test]
fn compact_of_an_empty_store_is_empty() {
    let mut store = fresh();
    assert_eq!(store.compact(), Ok(()));
    assert_eq!(store.log_bytes().len(), 0);
    set(&mut store, "a", "1");
    assert_eq!(store.remove("a".to_string()), Ok(()));
    assert_eq!(store.compact(), Ok(()));
    assert_eq!(store.log_bytes().len(), 0);
}

#[test]
fn store_works_on_after_compaction() {
    let mut store = fresh();
    set(&mut store, "a", "1");
    set(&mut store, "a", "2");
    assert_eq!(store.compact(), Ok(()));
    set(&mut store, "b", "3");
    assert_eq!(store.remove("a".to_string()), Ok(()));
    let store = reopen(&store);
    assert_eq!(get(&store, "a"), None);
    assert_eq!(get(&store, "b"), value("3"));
}

#[test]
fn keys_and_values_may_hold_any_text() {
    let mut store = fresh();
    let odd = "line\nbreak\0nul,comma é \u{10ffff}";
    set(&mut store, odd, odd);
    set(&mut store, "", odd);
    let store = reopen(&store);
    assert_eq!(get(&store, odd), value(odd));
    assert_eq!(get(&store, ""), value(odd));
}
