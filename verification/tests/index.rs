use kvs::{KvError, KvIndex, KvLog, LogCommand};

fn put(key: &str, value: &str) -> LogCommand {
    LogCommand::Put(key.to_string(), value.to_string())
}

fn remove(key: &str) -> LogCommand {
    LogCommand::Remove(key.to_string())
}

fn log_of(commands: Vec<LogCommand>) -> KvLog {
    let mut log = KvLog::open(Vec::new()).ok().unwrap();
    for command in commands {
        log.append(command).unwrap();
    }
    log
}

#[test]
fn empty_index_holds_no_key() {
    let index = KvIndex::empty();
    assert_eq!(index.lookup("a"), None);
    assert_eq!(index.lookup(""), None);
}

#[test]
fn set_overwrites_the_place() {
    let mut index = KvIndex::empty();
    index.set("a".to_string(), 5);
    assert_eq!(index.lookup("a"), Some(5));
    index.set("a".to_string(), 40);
    assert_eq!(index.lookup("a"), Some(40));
    index.set("b".to_string(), 7);
    assert_eq!(index.lookup("a"), Some(40));
    assert_eq!(index.lookup("b"), Some(7));
}

#[test]
fn remove_tells_whether_the_key_was_there() {
    let mut index = KvIndex::empty();
    index.set("a".to_string(), 5);
    assert!(!index.remove("b"));
    assert_eq!(index.lookup("a"), Some(5));
    assert!(index.remove("a"));
    assert_eq!(index.lookup("a"), None);
    assert!(!index.remove("a"));
}

#[test]
fn rebuild_of_an_empty_log_is_empty() {
    let index = KvIndex::new(&log_of(vec![])).ok().unwrap();
    assert_eq!(index.lookup("a"), None);
}

#[test]
fn rebuild_points_at_the_last_put() {
    let log = log_of(vec![put("a", "1"), put("b", "2"), put("a", "3")]);
    let index = KvIndex::new(&log).ok().unwrap();
    assert_eq!(index.lookup("a"), Some(44));
    assert_eq!(index.lookup("b"), Some(22));
    assert_eq!(log.read(44), Ok(put("a", "3")));
}

#[test]
fn rebuild_drops_removed_keys() {
    let log = log_of(vec![put("a", "1"), put("b", "2"), remove("a")]);
    let index = KvIndex::new(&log).ok().unwrap();
    assert_eq!(index.lookup("a"), None);
    assert_eq!(index.lookup("b"), Some(22));
}

#[test]
fn rebuild_takes_a_removal_of_an_absent_key() {
    let log = log_of(vec![remove("a"), put("b", "2")]);
    let index = KvIndex::new(&log).ok().unwrap();
    assert_eq!(index.lookup("a"), None);
    assert_eq!(index.lookup("b"), Some(13));
}

#[test]
fn rebuild_follows_put_remove_put() {
    let log = log_of(vec![put("a", "1"), remove("a"), put("a", "2"), remove("b")]);
    let index = KvIndex::new(&log).ok().unwrap();
    assert_eq!(index.lookup("a"), Some(35));
}

#[test]
fn rebuild_of_a_cut_log_is_corrupt() {
    let log = log_of(vec![put("a", "1"), put("b", "2")]);
    let mut bytes = log.as_bytes().to_vec();
    bytes.truncate(30);
    let cut = KvLog::open(bytes).ok().unwrap();
    assert_eq!(KvIndex::new(&cut).err(), Some(KvError::CorruptRecord));
}

#[test]
fn rebuild_of_bad_utf8_is_a_serialization_error() {
    let log = log_of(vec![put("a", "1"), put("b", "2")]);
    let mut bytes = log.as_bytes().to_vec();
    bytes[22 + 12] = 0xff;
    let bad = KvLog::open(bytes).ok().unwrap();
    assert_eq!(KvIndex::new(&bad).err(), Some(KvError::SerializationError));
}
