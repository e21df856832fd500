use kvs::{KvError, KvLog, LogCommand, LogIterator};

fn put(key: &str, value: &str) -> LogCommand {
    LogCommand::Put(key.to_string(), value.to_string())
}

fn remove(key: &str) -> LogCommand {
    LogCommand::Remove(key.to_string())
}

fn empty_log() -> KvLog {
    match KvLog::open(Vec::new()) {
        Ok(log) => log,
        Err(e) => panic!("an empty log did not open: {:?}", e),
    }
}

#[test]
fn open_keeps_the_bytes() {
    let bytes: Vec<u8> = vec![1, 2, 3];
    let log = KvLog::open(bytes.clone()).ok().unwrap();
    assert_eq!(log.as_bytes(), &bytes[..]);
    assert_eq!(log.len(), 3);
    assert_eq!(empty_log().len(), 0);
}

#[test]
fn append_returns_where_the_record_starts() {
    let mut log = empty_log();
    assert_eq!(log.append(put("a", "1")), Ok(0));
    assert_eq!(log.len(), 22);
    assert_eq!(log.append(remove("a")), Ok(22));
    assert_eq!(log.len(), 35);
    assert_eq!(log.append(put("bb", "22")), Ok(35));
    assert_eq!(log.len(), 59);
}

#[test]
fn append_writes_the_encoding_at_the_end() {
    let mut log = empty_log();
    log.append(put("a", "1")).unwrap();
    let first = log.as_bytes().to_vec();
    log.append(remove("a")).unwrap();
    let mut expected = first.clone();
    expected.extend_from_slice(&kvs::codec::encode(&remove("a")).unwrap());
    assert_eq!(log.as_bytes(), &expected[..]);
    assert_eq!(&log.as_bytes()[..first.len()], &first[..]);
}

#[test]
fn read_finds_each_record_at_its_place() {
    let mut log = empty_log();
    let a = log.append(put("a", "1")).unwrap();
    let b = log.append(remove("a")).unwrap();
    let c = log.append(put("key", "value")).unwrap();
    assert_eq!(log.read(c), Ok(put("key", "value")));
    assert_eq!(log.read(a), Ok(put("a", "1")));
    assert_eq!(log.read(b), Ok(remove("a")));
}

#[test]
fn read_at_the_end_is_corrupt() {
    let mut log = empty_log();
    assert_eq!(log.read(0), Err(KvError::CorruptRecord));
    log.append(put("a", "1")).unwrap();
    assert_eq!(log.read(log.len()), Err(KvError::CorruptRecord));
    assert_eq!(log.read(log.len() + 1), Err(KvError::CorruptRecord));
    assert_eq!(log.read(usize::MAX), Err(KvError::CorruptRecord));
}

#[test]
fn read_inside_a_record_does_not_find_that_record() {
    let mut log = empty_log();
    log.append(put("a", "1")).unwrap();
    // The bytes from the second on start with the tag 0x01000000.
    assert_eq!(log.read(4), Err(KvError::CorruptRecord));
    assert_eq!(log.read(21), Err(KvError::CorruptRecord));
}

#[test]
fn iterate_gives_the_records_in_order_with_their_places() {
    let mut log = empty_log();
    log.append(put("a", "1")).unwrap();
    log.append(put("b", "2")).unwrap();
    log.append(remove("a")).unwrap();
    let mut iter = log.iter().ok().unwrap();
    assert_eq!(iter.position(), 0);
    assert_eq!(iter.next(), Some((put("a", "1"), 0)));
    assert_eq!(iter.position(), 22);
    assert_eq!(iter.next(), Some((put("b", "2"), 22)));
    assert_eq!(iter.next(), Some((remove("a"), 44)));
    assert_eq!(iter.position(), log.len());
    assert_eq!(iter.next(), None);
    assert_eq!(iter.next(), None);
    assert_eq!(iter.position(), log.len());
}

#[test]
fn iterate_can_start_again() {
    let mut log = empty_log();
    log.append(put("a", "1")).unwrap();
    for _ in 0..2 {
        let mut iter = log.iter().ok().unwrap();
        assert_eq!(iter.next(), Some((put("a", "1"), 0)));
        assert_eq!(iter.next(), None);
    }
}

#[test]
fn iterate_over_an_empty_log_ends_at_once() {
    let log = empty_log();
    let mut iter = log.iter().ok().unwrap();
    assert_eq!(iter.next(), None);
    assert_eq!(iter.position(), 0);
}

#[test]
fn iterate_stops_at_bytes_that_are_no_record() {
    let mut log = empty_log();
    log.append(put("a", "1")).unwrap();
    let mut bytes = log.as_bytes().to_vec();
    bytes.extend_from_slice(&[7, 0, 0, 0, 1]);
    let mut iter = LogIterator::new(&bytes);
    assert_eq!(iter.next(), Some((put("a", "1"), 0)));
    assert_eq!(iter.next(), None);
    assert_eq!(iter.position(), 22);
    assert_eq!(iter.next(), None);
}
