use coordkit::ordmap::valid_range;
use coordkit::ordmap::Bound;
use coordkit::wal::cli::parse_command;
use coordkit::wal::cli::show_scan;
use coordkit::wal::cli::show_value;
use coordkit::wal::cli::Command;
use coordkit::wal::error::Error;
use coordkit::wal::log::encode_record;
use coordkit::wal::log::frame;
use coordkit::wal::log::read_entry;
use coordkit::wal::log::Record;
use coordkit::wal::log::MAX_RECORD;
use coordkit::wal::store::Store;
use coordkit::ordmap::Key;
use coordkit::wire::Field;
use std::collections::BTreeMap;
use std::io::ErrorKind;

/// A store together with the bytes of its log.
struct Db<K: Key + Field, V: Field> {
    store: Store<K, V>,
    log: Vec<u8>,
}

impl<K: Key + Field, V: Field> Db<K, V> {
    fn open(log: &[u8]) -> Db<K, V> {
        let (store, kept) = Store::open(log);
        Db { store, log: log[..kept].to_vec() }
    }

    fn set(&mut self, key: K, value: V) {
        let pending = self.store.set(key, value).unwrap();
        self.log.extend_from_slice(pending.frame());
        self.store.commit(pending, Ok(())).unwrap();
    }

    fn delete(&mut self, key: &K) {
        let pending = self.store.delete(key).unwrap();
        self.log.extend_from_slice(pending.frame());
        self.store.commit(pending, Ok(())).unwrap();
    }

    fn compact(&mut self) {
        self.log = self.store.compact();
    }

    fn scan(&self) -> Vec<(&K, &V)> {
        self.store.scan(Bound::Unbounded, Bound::Unbounded)
    }

    fn reopened(&self) -> Db<K, V> {
        Db::open(&self.log)
    }
}

#[test]
fn round_trip_reopen() {
    let mut db: Db<String, String> = Db::open(&[]);
    for i in 0..100 {
        db.set(format!("k{i:03}"), format!("v{i}"));
    }
    let db = db.reopened();
    assert_eq!(db.store.len(), 100);
    for i in 0..100 {
        assert_eq!(db.store.get(&format!("k{i:03}")), Some(&format!("v{i}")));
    }
}

#[test]
fn scan_returns_sorted_entries() {
    let mut db: Db<String, u32> = Db::open(&[]);
    for k in ["mango", "apple", "cherry", "noodle", "banana"] {
        db.set(k.to_string(), k.len() as u32);
    }

    let all: Vec<&str> = db.scan().into_iter().map(|(k, _)| k.as_str()).collect();
    assert_eq!(all, vec!["apple", "banana", "cherry", "mango", "noodle"]);

    let range: Vec<&str> = db
        .store
        .scan(Bound::Included("m".to_string()), Bound::Included("n".to_string()))
        .into_iter()
        .map(|(k, _)| k.as_str())
        .collect();
    assert_eq!(range, vec!["mango"]);
}

#[test]
fn delete_persists_across_reopen() {
    let mut db: Db<String, String> = Db::open(&[]);
    db.set("a".into(), "1".into());
    db.set("b".into(), "2".into());
    let mut db = db.reopened();
    db.delete(&"a".to_string());
    let db = db.reopened();
    assert_eq!(db.store.get(&"a".to_string()), None);
    assert_eq!(db.store.get(&"b".to_string()), Some(&"2".into()));
}

#[test]
fn empty_store_reopens() {
    let db: Db<String, String> = Db::open(&[]);
    let db = db.reopened();
    assert_eq!(db.store.len(), 0);
    assert!(db.store.is_empty());
    assert!(db.scan().into_iter().next().is_none());
}

#[test]
fn overwrite_same_key_latest_wins_after_replay() {
    let mut db: Db<String, u32> = Db::open(&[]);
    db.set("k".into(), 1);
    db.set("k".into(), 2);
    db.set("k".into(), 3);
    let db = db.reopened();
    assert_eq!(db.store.get(&"k".to_string()), Some(&3));
    assert_eq!(db.store.len(), 1);
}

#[test]
fn any_truncation_recovers_to_a_committed_prefix() {
    // A mix of set / overwrite / delete so successive states genuinely diverge.
    let ops: Vec<(String, Option<String>)> = vec![
        ("alpha".into(), Some("1".into())),
        ("bravo".into(), Some("two".into())),
        ("charlie".into(), Some("longer-value-here".into())),
        ("alpha".into(), None),
        ("delta".into(), Some("4".into())),
        ("bravo".into(), Some("two-revised".into())),
    ];

    // Snapshot the expected map after each commit, plus the empty pre-state.
    let mut expected: Vec<BTreeMap<String, String>> = vec![BTreeMap::new()];
    let mut ends: Vec<usize> = vec![0];
    let mut db: Db<String, String> = Db::open(&[]);
    let mut state = BTreeMap::new();
    for (k, v) in &ops {
        match v {
            Some(v) => {
                db.set(k.clone(), v.clone());
                state.insert(k.clone(), v.clone());
            }
            None => {
                db.delete(k);
                state.remove(k);
            }
        }
        expected.push(state.clone());
        ends.push(db.log.len());
    }
    let full = db.log.clone();

    assert_eq!(
        recover(&full),
        expected.last().cloned().unwrap(),
        "full file failed to reopen to the final state",
    );

    for cut in 0..full.len() {
        let observed = recover(&full[..cut]);
        assert!(
            expected.contains(&observed),
            "cut={cut} of {}: recovered state {:?} is not any committed prefix",
            full.len(),
            observed,
        );
        // It is the state after the entries that are whole in the cut.
        let whole = ends.iter().filter(|e| **e <= cut).count() - 1;
        assert_eq!(observed, expected[whole]);
    }
}

fn recover(bytes: &[u8]) -> BTreeMap<String, String> {
    let db: Db<String, String> = Db::open(bytes);
    db.scan().into_iter().map(|(k, v)| (k.clone(), v.clone())).collect()
}

#[test]
fn compaction_shrinks_log_and_preserves_state() {
    let mut db: Db<String, String> = Db::open(&[]);
    for i in 0..50 {
        db.set(format!("k{i:02}"), format!("v{i}"));
    }
    db.delete(&"k07".to_string());

    let size_before = db.log.len();
    db.compact();
    let size_after = db.log.len();

    assert!(
        size_after < size_before,
        "compact() did not shrink the log: {size_before} -> {size_after}",
    );

    // Mutations after compaction still go through the log.
    db.set("k99".into(), "v99".into());

    let db = db.reopened();
    assert_eq!(db.store.get(&"k07".to_string()), None);
    assert_eq!(db.store.get(&"k99".to_string()), Some(&"v99".into()));
    assert_eq!(db.store.len(), 50);
    for i in 0..50 {
        if i == 7 {
            continue;
        }
        assert_eq!(db.store.get(&format!("k{i:02}")).cloned(), Some(format!("v{i}")));
    }
}

#[test]
fn stores_u64_keyed_chunks() {
    let payload_a = vec![0xAAu8; 4 * 1024 * 1024];
    let payload_b = vec![0xBBu8; 4 * 1024 * 1024];
    let mut db: Db<u64, Vec<u8>> = Db::open(&[]);
    db.set(1, payload_a.clone());
    db.set(2, payload_b.clone());
    db.set(3, vec![]);
    let db = db.reopened();
    assert_eq!(db.store.get(&1).map(|v| v.len()), Some(payload_a.len()));
    assert_eq!(db.store.get(&1).unwrap()[0], 0xAA);
    assert_eq!(db.store.get(&2).unwrap()[0], 0xBB);
    assert_eq!(db.store.get(&3).map(|v| v.len()), Some(0));

    let ids: Vec<u64> = db.scan().into_iter().map(|(k, _)| *k).collect();
    assert_eq!(ids, vec![1, 2, 3]);
}

#[test]
fn bytes_of_an_entry() {
    // The format of a record is that of an enum with the variants Set and Delete.
    let set: Record<String, String> = Record::Put { key: "ab".into(), value: "c".into() };
    let payload = encode_record(&set);
    assert_eq!(payload, vec![0, 2, b'a', b'b', 1, b'c']);
    let crc = crc32fast::hash(&payload).to_le_bytes();
    let mut bytes = vec![6, 0, 0, 0];
    bytes.extend_from_slice(&crc);
    bytes.extend_from_slice(&payload);
    assert_eq!(frame(&payload), bytes);

    let delete: Record<u64, u32> = Record::Delete { key: 300 };
    assert_eq!(encode_record(&delete), vec![1, 0xac, 0x02]);
    assert_eq!(crc32fast::hash(b"123456789"), 0xcbf43926);
}

#[test]
fn a_known_log_is_read() {
    let log = [
        8u8, 0, 0, 0, 0, 0, 0, 0, 0, 1, b'k', 5, b'h', b'e', b'l', b'l',
    ];
    // The checksum is wrong, so nothing is taken.
    assert!(read_entry::<String, String>(&log).is_none());
    let payload = [0u8, 1, b'k', 5, b'h', b'e', b'l', b'l', b'o'];
    let log = frame(&payload);
    match read_entry::<String, String>(&log) {
        Some((Record::Put { key, value }, n)) => {
            assert_eq!((key.as_str(), value.as_str(), n), ("k", "hello", 17));
        }
        _ => panic!("the entry was not read"),
    }
}

#[test]
fn corrupted_tail_is_cut_off_and_earlier_entries_survive() {
    let mut db: Db<String, u32> = Db::open(&[]);
    db.set("a".into(), 1);
    let good = db.log.len();
    db.set("b".into(), 2);
    for at in good..db.log.len() {
        let mut log = db.log.clone();
        log[at] ^= 0x40;
        let (store, kept) = Store::<String, u32>::open(&log);
        assert_eq!(kept, good);
        assert_eq!(store.len(), 1);
        assert_eq!(store.get(&"a".to_string()), Some(&1));
    }
}

#[test]
fn entries_that_are_no_records_end_the_replay() {
    let unknown = frame(&[2, 1, b'a']);
    assert!(read_entry::<String, u32>(&unknown).is_none());
    let torn_key = frame(&[0, 200, 1, b'a']);
    assert!(read_entry::<String, u32>(&torn_key).is_none());
    let no_text = frame(&[1, 1, 0xff]);
    assert!(read_entry::<String, u32>(&no_text).is_none());
    let missing_value = frame(&[0, 1, b'a']);
    assert!(read_entry::<String, u32>(&missing_value).is_none());
    let trailing = frame(&[0, 1, b'a', 5, 99]);
    assert!(matches!(
        read_entry::<String, u32>(&trailing),
        Some((Record::Put { value: 5, .. }, 13))
    ));
    let mut long = (MAX_RECORD + 1).to_le_bytes().to_vec();
    long.resize(64, 0);
    assert!(read_entry::<String, u32>(&long).is_none());
    assert!(read_entry::<String, u32>(&[0; 7]).is_none());
}

#[test]
fn record_over_the_limit_is_refused() {
    let (store, _) = Store::<u64, Vec<u8>>::open(&[]);
    // Tag, key and length take one, one and four bytes.
    let room = MAX_RECORD as usize - 6;
    assert!(store.set(1, vec![0; room]).is_ok());
    match store.set(1, vec![0; room + 1]) {
        Err(e) => {
            assert!(matches!(e, Error::RecordTooLarge));
            assert_eq!(e.heading(), "record too large");
        }
        Ok(_) => panic!("the record was accepted"),
    }
    assert!(store.is_empty());
}

#[test]
fn failed_write_leaves_the_store_as_it_is() {
    let mut db: Db<String, u32> = Db::open(&[]);
    db.set("a".into(), 1);
    let pending = db.store.set("a".into(), 2).unwrap();
    let failed = db.store.commit(pending, Err(ErrorKind::StorageFull.into()));
    match failed {
        Err(e) => {
            assert!(matches!(e, Error::Io(_)));
            assert_eq!(e.heading(), "i/o error: ");
        }
        Ok(()) => panic!("the change was acknowledged"),
    }
    assert_eq!(db.store.get(&"a".to_string()), Some(&1));
    let other: Error = std::io::Error::from(ErrorKind::Other).into();
    assert!(matches!(other, Error::Io(_)));
    let other: Error = postcard::Error::DeserializeUnexpectedEnd.into();
    assert!(matches!(other, Error::Serialization(postcard::Error::DeserializeUnexpectedEnd)));
    assert_eq!(other.heading(), "seriazation error : ");
}

#[test]
fn whole_scan_lists_every_entry() {
    let mut db: Db<u64, String> = Db::open(&[]);
    for i in 0..20u64 {
        assert_eq!(db.store.scan(Bound::Unbounded, Bound::Unbounded).len(), db.store.len());
        db.set(i * 7 % 13, "x".into());
    }
    assert_eq!(db.store.len(), 13);
    assert_eq!(db.store.scan(Bound::Unbounded, Bound::Unbounded).len(), 13);
    let none: Db<u64, String> = Db::open(&[]);
    assert!(none.store.is_empty());
    assert!(none.store.scan(Bound::Unbounded, Bound::Unbounded).is_empty());
}

#[test]
fn compaction_shrinks_a_log_with_a_dead_record() {
    let mut db: Db<u64, String> = Db::open(&[]);
    db.set(1, "a".into());
    db.set(2, "b".into());
    assert_eq!(db.store.compact().len(), db.log.len());
    db.delete(&9);
    assert!(db.store.compact().len() < db.log.len());
    db.compact();
    db.set(1, "a".into());
    assert!(db.store.compact().len() < db.log.len());
}

#[test]
fn deleting_a_missing_key_is_no_error() {
    let mut db: Db<String, u32> = Db::open(&[]);
    db.delete(&"nothing".to_string());
    assert!(db.reopened().store.is_empty());
}

#[test]
fn range_ends() {
    let mut db: Db<u64, u32> = Db::open(&[]);
    for k in [10, 20, 30, 40] {
        db.set(k, k as u32);
    }
    let keys = |lower: Bound<u64>, upper: Bound<u64>| -> Vec<u64> {
        assert!(valid_range(&lower, &upper));
        db.store.scan(lower, upper).into_iter().map(|(k, _)| *k).collect()
    };
    assert_eq!(keys(Bound::Included(20), Bound::Unbounded), vec![20, 30, 40]);
    assert_eq!(keys(Bound::Excluded(20), Bound::Included(40)), vec![30, 40]);
    assert_eq!(keys(Bound::Unbounded, Bound::Excluded(30)), vec![10, 20]);
    assert_eq!(keys(Bound::Included(25), Bound::Excluded(25)), Vec::<u64>::new());
    assert!(!valid_range(&Bound::Excluded(5), &Bound::Excluded(5u64)));
    assert!(!valid_range(&Bound::Included(6), &Bound::Included(5u64)));
    assert!(valid_range(&Bound::Excluded(5), &Bound::Included(5u64)));
}

#[test]
fn fields_are_written_as_varints_and_blocks() {
    assert_eq!(0u64.encode(), vec![0]);
    assert_eq!(127u64.encode(), vec![127]);
    assert_eq!(128u64.encode(), vec![0x80, 0x01]);
    assert_eq!(
        u64::MAX.encode(),
        vec![0xff, 0xff, 0xff, 0xff, 0xff, 0xff, 0xff, 0xff, 0xff, 0x01]
    );
    assert_eq!(u32::MAX.encode(), vec![0xff, 0xff, 0xff, 0xff, 0x0f]);
    assert_eq!(u16::MAX.encode(), vec![0xff, 0xff, 0x03]);
    assert_eq!("h\u{e9}".to_string().encode(), vec![3, b'h', 0xc3, 0xa9]);
    assert_eq!(vec![9u8, 8].encode(), vec![2, 9, 8]);
}

#[test]
fn fields_are_read_back_with_what_follows() {
    let (n, rest) = u64::decode(&[0x80, 0x01, 7]).unwrap();
    assert_eq!((n, rest), (128, &[7u8][..]));
    assert!(u64::decode(&[0x80]).is_none());
    assert!(u64::decode(&[0xff; 10]).is_none());
    assert!(u32::decode(&[0xff, 0xff, 0xff, 0xff, 0x10]).is_none());
    assert!(u16::decode(&[0xff, 0xff, 0x04]).is_none());
    // A longer form of the same number is read too.
    assert_eq!(u32::decode(&[0x81, 0x00]).unwrap().0, 1);
    let (s, rest) = String::decode(&[2, b'o', b'k', b'!']).unwrap();
    assert_eq!((s.as_str(), rest), ("ok", &b"!"[..]));
    assert!(String::decode(&[1, 0xff]).is_none());
    assert!(Vec::<u8>::decode(&[3, 1, 2]).is_none());
    assert_eq!(Vec::<u8>::decode(&[0]).unwrap().0, Vec::<u8>::new());
}

#[test]
fn shell_commands() {
    assert_eq!(parse_command("  \t "), Command::Nothing);
    assert_eq!(parse_command("get k\n"), Command::Get("k".into()));
    assert_eq!(parse_command("get"), Command::Usage("usage: get <key>"));
    assert_eq!(parse_command("set k a b  c"), Command::Put("k".into(), "a b  c".into()));
    assert_eq!(parse_command("set k"), Command::Usage("usage: set <key> <value>"));
    assert_eq!(parse_command("del k"), Command::Delete("k".into()));
    assert_eq!(parse_command("delete"), Command::Usage("usage: delete <key>"));
    assert_eq!(parse_command("scan"), Command::Scan(Bound::Unbounded, Bound::Unbounded));
    assert_eq!(
        parse_command("scan a"),
        Command::Scan(Bound::Included("a".into()), Bound::Unbounded)
    );
    assert_eq!(
        parse_command("scan a b"),
        Command::Scan(Bound::Included("a".into()), Bound::Included("b".into()))
    );
    assert_eq!(parse_command("compact"), Command::Compact);
    assert_eq!(parse_command("len"), Command::Len);
    assert_eq!(parse_command("help me"), Command::Help);
    for quit in ["quit", "exit", "q"] {
        assert_eq!(parse_command(quit), Command::Quit);
    }
    assert_eq!(parse_command("frob x"), Command::Unknown("frob".into()));
}

#[test]
fn shell_answers() {
    let mut db: Db<String, String> = Db::open(&[]);
    db.set("a".into(), "1".into());
    db.set("b".into(), "2".into());
    assert_eq!(show_value(&db.store, &"a".to_string()), "1");
    assert_eq!(show_value(&db.store, &"z".to_string()), "(nil)");
    assert_eq!(
        show_scan(&db.store, Bound::Unbounded, Bound::Unbounded),
        vec!["a = 1", "b = 2", "(2 entries)"]
    );
    assert_eq!(
        show_scan(&db.store, Bound::Included("x".to_string()), Bound::Unbounded),
        vec!["(0 entries)"]
    );
}

#[test]
fn compaction_never_makes_a_log_longer() {
    let mut db: Db<String, String> = Db::open(&[]);
    for i in 0..40u32 {
        if i % 7 == 3 {
            db.delete(&format!("k{}", i % 5));
        } else {
            db.set(format!("k{}", i % 5), "v".repeat((i % 11) as usize));
        }
        assert!(db.store.compact().len() <= db.log.len());
    }
    // What is compact already stays as long as it is.
    db.compact();
    assert_eq!(db.store.compact(), db.log);
    assert_eq!(db.reopened().scan(), db.scan());
}
