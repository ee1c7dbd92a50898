use kvs::codec::{decode, encode, KvAction, WalCommand};
use kvs::error::KvsError;
use kvs::store::KvStore;

fn set(store: &mut KvStore, log: &mut Vec<u8>, key: &str, value: &str) {
    let append = store.set(key.to_string(), value.to_string()).unwrap();
    log.extend_from_slice(append.bytes());
    store.commit(append);
}

fn remove(store: &mut KvStore, log: &mut Vec<u8>, key: &str) -> Result<(), KvsError> {
    let append = store.remove(key.to_string())?;
    log.extend_from_slice(append.bytes());
    store.commit(append);
    Ok(())
}

fn line_at(log: &[u8], offset: u64) -> &[u8] {
    let rest = &log[offset as usize..];
    match rest.iter().position(|b| *b == b'\n') {
        Some(i) => &rest[..=i],
        None => rest,
    }
}

fn get(store: &KvStore, log: &[u8], key: &str) -> Result<Option<String>, KvsError> {
    let key = key.to_string();
    match store.locate(&key) {
        Some(offset) => store.get(&key, line_at(log, offset)),
        None => store.get(&key, &[]),
    }
}

#[test]
fn encode_set_record() {
    let cmd = WalCommand::new(KvAction::Put, "a".to_string(), Some("1".to_string()));
    let bytes = encode(&cmd).unwrap();
    assert_eq!(bytes, b"{\"action\":\"Set\",\"key\":\"a\",\"value\":\"1\"}\n".to_vec());
}

#[test]
fn encode_rm_record() {
    let cmd = WalCommand::new(KvAction::Rm, "a".to_string(), None);
    let bytes = encode(&cmd).unwrap();
    assert_eq!(bytes, b"{\"action\":\"Rm\",\"key\":\"a\"}\n".to_vec());
}

#[test]
fn encode_escapes_quotes_and_newlines() {
    let cmd = WalCommand::new(KvAction::Put, "q\"k".to_string(), Some("l1\nl2\\".to_string()));
    let bytes = encode(&cmd).unwrap();
    assert_eq!(
        bytes,
        b"{\"action\":\"Set\",\"key\":\"q\\\"k\",\"value\":\"l1\\nl2\\\\\"}\n".to_vec()
    );
    assert_eq!(bytes.iter().filter(|b| **b == b'\n').count(), 1);
}

#[test]
fn decode_round_trip() {
    let keys = ["", "plain", "with \"quotes\"", "comma,colon:brace}", "back\\slash", "tab\tcr\r", "ünï ✓"];
    for key in keys.iter() {
        for value in keys.iter() {
            let cmd = WalCommand::new(KvAction::Put, key.to_string(), Some(value.to_string()));
            let back = decode(&encode(&cmd).unwrap()).unwrap();
            assert_eq!(back.action, KvAction::Put);
            assert_eq!(back.key, key.to_string());
            assert_eq!(back.value, Some(value.to_string()));
        }
        let cmd = WalCommand::new(KvAction::Rm, key.to_string(), None);
        let back = decode(&encode(&cmd).unwrap()).unwrap();
        assert_eq!(back.action, KvAction::Rm);
        assert_eq!(back.key, key.to_string());
        assert_eq!(back.value, None);
    }
}

#[test]
fn decode_rejects_malformed() {
    let bad: [&[u8]; 7] = [
        b"",
        b"garbage\n",
        b"{\"action\":\"Get\",\"key\":\"a\"}\n",
        b"{\"action\":\"Set\",\"key\":\"a\"}\n",
        b"{\"action\":\"Rm\",\"key\":\"a\",\"value\":\"1\"}\n",
        b"{\"action\":\"Rm\",\"key\":\"a\"}",
        b"{\"action\":\"Rm\",\"key\":\"a}\n",
    ];
    for line in bad.iter() {
        assert_eq!(decode(line).err(), Some(KvsError::CorruptRecord));
    }
}

#[test]
fn round_trip_set_get() {
    let mut store = KvStore::new();
    let mut log = Vec::new();
    let pairs = [("", ""), ("k", "v"), ("{\"x\":1}", "a,b:c"), ("ключ", "значение")];
    for (k, v) in pairs.iter() {
        set(&mut store, &mut log, k, v);
        assert_eq!(get(&store, &log, k), Ok(Some(v.to_string())));
    }
}

#[test]
fn overwrite_keeps_second_value() {
    let mut store = KvStore::new();
    let mut log = Vec::new();
    set(&mut store, &mut log, "k", "v1");
    let second_start = store.write_marker();
    set(&mut store, &mut log, "k", "v2");
    assert_eq!(get(&store, &log, "k"), Ok(Some("v2".to_string())));
    assert_eq!(store.locate(&"k".to_string()), Some(second_start));
    let text = String::from_utf8(log.clone()).unwrap();
    assert_eq!(text.lines().filter(|l| l.starts_with("{\"action\":\"Set\",\"key\":\"k\"")).count(), 2);
}

#[test]
fn removal_then_second_remove_fails() {
    let mut store = KvStore::new();
    let mut log = Vec::new();
    set(&mut store, &mut log, "k", "v");
    assert_eq!(remove(&mut store, &mut log, "k"), Ok(()));
    assert_eq!(get(&store, &log, "k"), Ok(None));
    assert_eq!(remove(&mut store, &mut log, "k"), Err(KvsError::KeyNotFound));
}

#[test]
fn absent_key_on_fresh_store() {
    let store = KvStore::open(&[]).unwrap();
    assert_eq!(store.write_marker(), 0);
    assert_eq!(get(&store, &[], "missing"), Ok(None));
    assert_eq!(store.locate(&"missing".to_string()), None);
}

#[test]
fn replay_gives_same_reads() {
    let mut store = KvStore::new();
    let mut log = Vec::new();
    set(&mut store, &mut log, "a", "1");
    set(&mut store, &mut log, "b", "2");
    set(&mut store, &mut log, "a", "3");
    remove(&mut store, &mut log, "b").unwrap();
    set(&mut store, &mut log, "c", "");
    let reopened = KvStore::open(&log).unwrap();
    assert_eq!(reopened.write_marker(), store.write_marker());
    for key in ["a", "b", "c", "d"].iter() {
        assert_eq!(get(&reopened, &log, key), get(&store, &log, key));
        assert_eq!(reopened.locate(&key.to_string()), store.locate(&key.to_string()));
    }
    assert_eq!(get(&reopened, &log, "a"), Ok(Some("3".to_string())));
    assert_eq!(get(&reopened, &log, "b"), Ok(None));
}

#[test]
fn set_advances_marker_by_record_length() {
    let mut store = KvStore::new();
    let mut log = Vec::new();
    set(&mut store, &mut log, "x", "y");
    let before = store.write_marker();
    let append = store.set("key".to_string(), "value".to_string()).unwrap();
    let len = append.bytes().len() as u64;
    assert_eq!(len, "{\"action\":\"Set\",\"key\":\"key\",\"value\":\"value\"}\n".len() as u64);
    assert_eq!(store.locate(&"key".to_string()), None);
    log.extend_from_slice(append.bytes());
    store.commit(append);
    assert_eq!(store.write_marker(), before + len);
    assert_eq!(store.locate(&"key".to_string()), Some(before));
    assert_eq!(log.len() as u64, store.write_marker());
}

#[test]
fn scenario_set_set_remove_reopen() {
    let mut store = KvStore::open(&[]).unwrap();
    let mut log = Vec::new();
    set(&mut store, &mut log, "a", "1");
    set(&mut store, &mut log, "b", "2");
    remove(&mut store, &mut log, "a").unwrap();
    assert_eq!(get(&store, &log, "a"), Ok(None));
    assert_eq!(get(&store, &log, "b"), Ok(Some("2".to_string())));
    let reopened = KvStore::open(&log).unwrap();
    assert_eq!(get(&reopened, &log, "b"), Ok(Some("2".to_string())));
    assert_eq!(get(&reopened, &log, "a"), Ok(None));
}

#[test]
fn open_rejects_corrupt_log() {
    let truncated = b"{\"action\":\"Set\",\"key\":\"a\",\"value\":\"1\"}".to_vec();
    assert_eq!(KvStore::open(&truncated).err(), Some(KvsError::CorruptRecord));
    let garbage = b"{\"action\":\"Set\",\"key\":\"a\",\"value\":\"1\"}\nnot a record\n".to_vec();
    assert_eq!(KvStore::open(&garbage).err(), Some(KvsError::CorruptRecord));
    let spaced = b"{\"action\": \"Set\",\"key\":\"a\",\"value\":\"1\"}\n".to_vec();
    assert_eq!(KvStore::open(&spaced).err(), Some(KvsError::CorruptRecord));
    let escaped = b"{\"action\":\"Set\",\"key\":\"\\u0061\",\"value\":\"1\"}\n".to_vec();
    assert_eq!(KvStore::open(&escaped).err(), Some(KvsError::CorruptRecord));
}

#[test]
fn open_replays_written_log() {
    let text = "{\"action\":\"Set\",\"key\":\"a\",\"value\":\"1\"}\n{\"action\":\"Set\",\"key\":\"b\",\"value\":\"2\"}\n{\"action\":\"Rm\",\"key\":\"a\"}\n";
    let store = KvStore::open(text.as_bytes()).unwrap();
    assert_eq!(store.write_marker(), text.len() as u64);
    assert_eq!(store.locate(&"a".to_string()), None);
    assert_eq!(store.locate(&"b".to_string()), Some(39));
    assert_eq!(get(&store, text.as_bytes(), "b"), Ok(Some("2".to_string())));
}

#[test]
fn get_detects_index_corruption() {
    let mut store = KvStore::new();
    let mut log = Vec::new();
    set(&mut store, &mut log, "a", "1");
    let other = b"{\"action\":\"Set\",\"key\":\"b\",\"value\":\"1\"}\n";
    assert_eq!(store.get(&"a".to_string(), other), Err(KvsError::IndexCorruption));
    let rm = b"{\"action\":\"Rm\",\"key\":\"a\"}\n";
    assert_eq!(store.get(&"a".to_string(), rm), Err(KvsError::IndexCorruption));
    assert_eq!(store.get(&"a".to_string(), b"junk\n"), Err(KvsError::CorruptRecord));
}

#[test]
fn remove_of_absent_key_is_key_not_found() {
    let store = KvStore::new();
    assert_eq!(store.remove("nope".to_string()).err(), Some(KvsError::KeyNotFound));
    assert_eq!(KvsError::KeyNotFound.message(), "Key not found");
}

#[test]
fn get_of_held_key_with_empty_record_is_corrupt() {
    let mut store = KvStore::new();
    let mut log = Vec::new();
    set(&mut store, &mut log, "a", "1");
    assert_eq!(store.get(&"a".to_string(), &[]), Err(KvsError::CorruptRecord));
    assert_eq!(store.get(&"a".to_string(), b"{\"action\":\"Set\",\"key\":\"a\",\"value\":\"1\"}"), Err(KvsError::CorruptRecord));
}

#[test]
fn decode_rejects_unframed_line() {
    assert_eq!(decode(b"{\"action\":\"Set\",\"key\":\"a\",\"value\":\"1\"}").err(), Some(KvsError::CorruptRecord));
    assert_eq!(decode(b"[\"action\",\"Rm\"]\n").err(), Some(KvsError::CorruptRecord));
}

#[test]
fn error_messages() {
    assert_eq!(KvsError::Io.message(), "I/O error on the log file");
    assert_eq!(KvsError::CorruptRecord.message(), "corrupt record in the log");
    assert_eq!(KvsError::IndexCorruption.message(), "index points to a record that does not set the key");
}

#[test]
fn reopen_scenario_log_has_expected_shape() {
    let mut store = KvStore::new();
    let mut log = Vec::new();
    set(&mut store, &mut log, "a", "1");
    set(&mut store, &mut log, "b", "2");
    remove(&mut store, &mut log, "a").unwrap();
    let reopened = KvStore::open(&log).unwrap();
    assert_eq!(reopened.write_marker(), 104);
    assert_eq!(reopened.locate(&"b".to_string()), Some(39));
    assert_eq!(reopened.locate(&"a".to_string()), None);
}
