use std::collections::BTreeMap;

use kvs::{serialize, CommandPos, KvStore, KvsError, Request, TxMessage};

/// The log files of a data directory, held in memory.
struct Disk {
    files: BTreeMap<u32, Vec<u8>>,
}

impl Disk {
    fn new() -> Disk {
        Disk { files: BTreeMap::new() }
    }

    fn listing(&self) -> Vec<(u32, Vec<u8>)> {
        self.files.iter().map(|(g, b)| (*g, b.clone())).collect()
    }

    fn open(&mut self, threshold: u64) -> KvStore {
        let store = KvStore::new(&self.listing(), threshold).unwrap();
        self.files.insert(store.log_idx(), Vec::new());
        store
    }

    fn append(&mut self, store: &KvStore, rec: &[u8]) {
        self.files.get_mut(&store.log_idx()).unwrap().extend_from_slice(rec);
    }

    fn set(&mut self, store: &mut KvStore, k: &str, v: &str) {
        let rec = store.set(k.to_string(), v.to_string()).unwrap();
        self.append(store, &rec);
    }

    fn remove(&mut self, store: &mut KvStore, k: &str) -> Result<(), KvsError> {
        let rec = store.remove(k.to_string())?;
        self.append(store, &rec);
        Ok(())
    }

    fn read(&self, pos: CommandPos) -> Vec<u8> {
        let f = &self.files[&pos.log_idx];
        let a = pos.starting_pos as usize;
        f[a..a + pos.len as usize].to_vec()
    }

    fn get(&self, store: &KvStore, k: &str) -> Option<String> {
        let key = k.to_string();
        let bytes = store.locate(&key).map(|pos| self.read(pos)).unwrap_or_default();
        store.get(&key, &bytes).unwrap()
    }

    fn compact(&mut self, store: &mut KvStore) {
        let c = store.compact().unwrap();
        let mut snap = Vec::new();
        for pos in &c.copies {
            snap.extend(self.read(*pos));
        }
        self.files.retain(|g, _| *g >= c.snapshot);
        self.files.insert(c.snapshot, snap);
        self.files.insert(c.next, Vec::new());
    }

    fn size(&self) -> usize {
        self.files.values().map(|f| f.len()).sum()
    }
}

#[test]
fn open_empty_directory() {
    let mut disk = Disk::new();
    let store = disk.open(1 << 20);
    assert_eq!(store.log_idx(), 1);
    assert_eq!(store.uncompacted(), 0);
    assert_eq!(store.writer_pos(), 0);
    assert_eq!(disk.get(&store, "a"), None);
}

#[test]
fn open_after_existing_generations() {
    let files = vec![(3, Vec::new()), (7, serialize(&Request::Put {
        key: "a".to_string(),
        val: "1".to_string(),
    }))];
    let store = KvStore::open(&files).unwrap();
    assert_eq!(store.log_idx(), 8);
    assert_eq!(store.threshold(), 1 << 20);
    assert_eq!(store.locate(&"a".to_string()).map(|p| p.log_idx), Some(7));
}

#[test]
fn open_rejects_unordered_generations() {
    assert_eq!(KvStore::open(&vec![(2, Vec::new()), (1, Vec::new())]).err(), Some(KvsError::LogInit));
    assert_eq!(KvStore::open(&vec![(2, Vec::new()), (2, Vec::new())]).err(), Some(KvsError::LogInit));
    assert_eq!(KvStore::open(&vec![(u32::MAX, Vec::new())]).err(), Some(KvsError::LogInit));
}

#[test]
fn set_returns_the_record_and_its_position() {
    let mut disk = Disk::new();
    let mut store = disk.open(1 << 20);
    let rec = store.set("key1".to_string(), "value1".to_string()).unwrap();
    assert_eq!(rec, b"16\nset 4 key1value1\n".to_vec());
    assert_eq!(
        store.locate(&"key1".to_string()),
        Some(CommandPos { log_idx: 1, starting_pos: 0, len: 20 })
    );
    assert_eq!(store.writer_pos(), 20);
}

#[test]
fn set_then_get() {
    let mut disk = Disk::new();
    let mut store = disk.open(1 << 20);
    disk.set(&mut store, "key1", "value1");
    assert_eq!(disk.get(&store, "key1"), Some("value1".to_string()));
}

#[test]
fn second_set_wins() {
    let mut disk = Disk::new();
    let mut store = disk.open(1 << 20);
    disk.set(&mut store, "key1", "value1");
    disk.set(&mut store, "key1", "value2");
    assert_eq!(disk.get(&store, "key1"), Some("value2".to_string()));
    // The first record, 20 bytes, is now stale.
    assert_eq!(store.uncompacted(), 20);
}

#[test]
fn set_then_remove() {
    let mut disk = Disk::new();
    let mut store = disk.open(1 << 20);
    disk.set(&mut store, "key1", "value1");
    disk.remove(&mut store, "key1").unwrap();
    assert_eq!(disk.get(&store, "key1"), None);
    // The set (20 bytes) and the tombstone "7\nrm key1\n" (10 bytes) are stale.
    assert_eq!(store.uncompacted(), 30);
}

#[test]
fn remove_of_an_absent_key() {
    let mut disk = Disk::new();
    let mut store = disk.open(1 << 20);
    disk.set(&mut store, "key1", "value1");
    let before = store.writer_pos();
    assert_eq!(disk.remove(&mut store, "key2"), Err(KvsError::KeyNotFound));
    assert_eq!(store.writer_pos(), before);
    assert_eq!(store.uncompacted(), 0);
    assert_eq!(disk.get(&store, "key1"), Some("value1".to_string()));
    assert_eq!(disk.get(&store, "key2"), None);
}

#[test]
fn reopen_keeps_every_key() {
    let mut disk = Disk::new();
    let mut store = disk.open(1 << 20);
    disk.set(&mut store, "key1", "value1");
    disk.set(&mut store, "key2", "value3");
    disk.set(&mut store, "key1", "value2");
    disk.remove(&mut store, "key1").unwrap();
    let stale = store.uncompacted();
    drop(store);
    let store = disk.open(1 << 20);
    assert_eq!(store.log_idx(), 2);
    assert_eq!(disk.get(&store, "key1"), None);
    assert_eq!(disk.get(&store, "key2"), Some("value3".to_string()));
    assert_eq!(store.uncompacted(), stale);
}

#[test]
fn boundary_keys_and_values() {
    let mut disk = Disk::new();
    let mut store = disk.open(1 << 30);
    let big = "v".repeat(1 << 20);
    disk.set(&mut store, "", "empty key");
    disk.set(&mut store, "empty value", "");
    disk.set(&mut store, "big", &big);
    disk.set(&mut store, "ключ-🔑", "значение");
    assert_eq!(disk.get(&store, ""), Some("empty key".to_string()));
    assert_eq!(disk.get(&store, "empty value"), Some(String::new()));
    assert_eq!(disk.get(&store, "big"), Some(big.clone()));
    assert_eq!(disk.get(&store, "ключ-🔑"), Some("значение".to_string()));
    let store = disk.open(1 << 30);
    assert_eq!(disk.get(&store, "big"), Some(big));
    assert_eq!(disk.get(&store, "ключ-🔑"), Some("значение".to_string()));
}

#[test]
fn torn_write_is_all_or_nothing() {
    let rec = serialize(&Request::Put { key: "k".to_string(), val: "new".to_string() });
    for cut in 0..=rec.len() {
        let mut disk = Disk::new();
        let mut store = disk.open(1 << 20);
        disk.set(&mut store, "k", "old");
        let g = store.log_idx();
        disk.files.get_mut(&g).unwrap().extend_from_slice(&rec[..cut]);
        let store = disk.open(1 << 20);
        let seen = disk.get(&store, "k");
        if cut == rec.len() {
            assert_eq!(seen, Some("new".to_string()));
        } else {
            assert_eq!(seen, Some("old".to_string()));
        }
    }
}

#[test]
fn compaction_keeps_the_live_records_only() {
    let mut disk = Disk::new();
    let mut store = disk.open(100);
    disk.set(&mut store, "a", "1");
    disk.set(&mut store, "b", "2");
    disk.set(&mut store, "a", "3");
    disk.remove(&mut store, "b").unwrap();
    disk.set(&mut store, "c", "4");
    let live = serialize(&Request::Put { key: "a".to_string(), val: "3".to_string() }).len()
        + serialize(&Request::Put { key: "c".to_string(), val: "4".to_string() }).len();
    assert!(store.uncompacted() > 0);
    disk.compact(&mut store);
    assert_eq!(store.uncompacted(), 0);
    assert_eq!(store.log_idx(), 3);
    assert_eq!(disk.files.keys().copied().collect::<Vec<u32>>(), vec![2, 3]);
    assert_eq!(disk.files[&2].len(), live);
    assert_eq!(disk.get(&store, "a"), Some("3".to_string()));
    assert_eq!(disk.get(&store, "b"), None);
    assert_eq!(disk.get(&store, "c"), Some("4".to_string()));
    let store = disk.open(100);
    assert_eq!(store.log_idx(), 4);
    assert_eq!(store.uncompacted(), 0);
    assert_eq!(disk.get(&store, "a"), Some("3".to_string()));
    assert_eq!(disk.get(&store, "c"), Some("4".to_string()));
}

#[test]
fn set_after_compaction_wins() {
    let mut disk = Disk::new();
    let mut store = disk.open(10);
    disk.set(&mut store, "k", "1");
    disk.set(&mut store, "k", "2");
    disk.compact(&mut store);
    disk.set(&mut store, "k", "3");
    assert_eq!(disk.get(&store, "k"), Some("3".to_string()));
    assert_eq!(store.locate(&"k".to_string()).map(|p| p.log_idx), Some(3));
    let store = disk.open(10);
    assert_eq!(disk.get(&store, "k"), Some("3".to_string()));
}

#[test]
fn compaction_is_due_past_the_threshold() {
    let mut disk = Disk::new();
    let mut store = disk.open(25);
    disk.set(&mut store, "key1", "value1");
    disk.set(&mut store, "key1", "value1");
    assert_eq!(store.uncompacted(), 20);
    assert!(!store.compaction_due());
    disk.set(&mut store, "key1", "value1");
    assert_eq!(store.uncompacted(), 40);
    assert!(store.compaction_due());
    assert!(store.should_compact(&TxMessage { log_idx: 1 }));
    assert!(!store.should_compact(&TxMessage { log_idx: 0 }));
    disk.compact(&mut store);
    assert!(!store.should_compact(&TxMessage { log_idx: 1 }));
}

#[test]
fn uncompacted_never_drops_between_compactions() {
    let mut disk = Disk::new();
    let mut store = disk.open(1 << 20);
    let mut last = 0;
    for i in 0..50 {
        let k = format!("k{}", i % 7);
        if i % 5 == 4 {
            let _ = disk.remove(&mut store, &k);
        } else {
            disk.set(&mut store, &k, &format!("v{}", i));
        }
        assert!(store.uncompacted() >= last);
        last = store.uncompacted();
    }
}

#[test]
fn compaction_bounds_the_log_size() {
    let mut disk = Disk::new();
    let mut store = disk.open(1000);
    let mut written = 0;
    let mut i = 0;
    while written < 10_000 {
        let rec_len = store.writer_pos();
        let k = format!("key{}", i % 10);
        disk.set(&mut store, &k, &"x".repeat(100));
        written += (store.writer_pos() - rec_len) as usize;
        if store.compaction_due() {
            disk.compact(&mut store);
        }
        i += 1;
    }
    disk.compact(&mut store);
    let live: usize = (0..10)
        .map(|i| format!("key{}", i).len() + 100)
        .sum();
    assert!(disk.size() < 2 * live);
}

#[test]
fn value_of_record_checks_the_key() {
    let rec = serialize(&Request::Put { key: "a".to_string(), val: "1".to_string() });
    assert_eq!(KvStore::value_of_record(&"a".to_string(), &rec), Ok("1".to_string()));
    assert!(matches!(
        KvStore::value_of_record(&"b".to_string(), &rec),
        Err(KvsError::UnexpectedCommandType(_))
    ));
    let rm = serialize(&Request::Rm { key: "a".to_string() });
    assert!(matches!(
        KvStore::value_of_record(&"a".to_string(), &rm),
        Err(KvsError::UnexpectedCommandType(_))
    ));
    match KvStore::value_of_record(&"a".to_string(), b"junk") {
        Err(KvsError::KvsDeserializer(raw, _)) => assert_eq!(raw, b"junk".to_vec()),
        other => panic!("unexpected {:?}", other),
    }
    let bad_utf8 = b"4\nrm \xff\n";
    match KvStore::value_of_record(&"a".to_string(), bad_utf8) {
        Err(KvsError::KvsDeserializer(raw, _)) => assert_eq!(raw, bad_utf8.to_vec()),
        other => panic!("unexpected {:?}", other),
    }
    assert_eq!(
        KvStore::value_of_record(&"b".to_string(), &rec),
        Err(KvsError::UnexpectedCommandType("b".to_string()))
    );
}

#[test]
fn get_reads_the_record_at_the_position() {
    let mut disk = Disk::new();
    let mut store = disk.open(1 << 20);
    disk.set(&mut store, "a", "1");
    assert_eq!(store.get(&"missing".to_string(), b""), Ok(None));
    let pos = store.locate(&"a".to_string()).unwrap();
    assert_eq!(store.get(&"a".to_string(), &disk.read(pos)), Ok(Some("1".to_string())));
    let rm = serialize(&Request::Rm { key: "a".to_string() });
    assert_eq!(
        store.get(&"a".to_string(), &rm),
        Err(KvsError::UnexpectedCommandType("a".to_string()))
    );
    match store.get(&"a".to_string(), b"3\nset") {
        Err(KvsError::KvsDeserializer(raw, _)) => assert_eq!(raw, b"3\nset".to_vec()),
        other => panic!("unexpected {:?}", other),
    }
}

#[test]
fn open_refuses_two_files_of_one_generation() {
    let files = vec![(7, Vec::new()), (7, Vec::new())];
    assert_eq!(KvStore::open(&files).err(), Some(KvsError::LogInit));
}

#[test]
fn gets_follow_the_last_write() {
    let mut disk = Disk::new();
    let mut store = disk.open(64);
    let steps: Vec<(&str, Option<&str>)> = vec![
        ("a", Some("1")),
        ("b", Some("2")),
        ("a", None),
        ("a", Some("3")),
        ("b", Some("4")),
        ("b", None),
        ("c", Some("5")),
    ];
    let mut model: BTreeMap<String, String> = BTreeMap::new();
    for (k, v) in steps {
        match v {
            Some(v) => {
                disk.set(&mut store, k, v);
                model.insert(k.to_string(), v.to_string());
            }
            None => {
                disk.remove(&mut store, k).unwrap();
                model.remove(k);
            }
        }
        if store.compaction_due() {
            disk.compact(&mut store);
        }
        for key in ["a", "b", "c"] {
            assert_eq!(disk.get(&store, key), model.get(key).cloned());
        }
    }
}

#[test]
fn every_live_key_points_to_a_set_of_itself() {
    let mut disk = Disk::new();
    let mut store = disk.open(1 << 20);
    for i in 0..20 {
        disk.set(&mut store, &format!("k{}", i % 6), &format!("v{}", i));
    }
    disk.remove(&mut store, "k2").unwrap();
    for i in 0..6 {
        let key = format!("k{}", i);
        match store.locate(&key) {
            Some(pos) => {
                let rec = disk.read(pos);
                match kvs::deserialize(&rec) {
                    Ok(Request::Put { key: k, .. }) => assert_eq!(k, key),
                    other => panic!("unexpected {:?}", other),
                }
            }
            None => assert_eq!(i, 2),
        }
    }
}
