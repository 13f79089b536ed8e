use kvs::kvstore::{KvStoreReader, KvStoreWriter, COMPACTION_THRESHOLD};
use kvs::KvsError;
use std::collections::BTreeMap;

/// The store's directory, held in memory: generation to file bytes.
struct Disk {
    files: BTreeMap<u64, Vec<u8>>,
}

/// A store over an in-memory directory, doing what the program does with files.
struct Store {
    disk: Disk,
    state: KvStoreWriter,
}

impl Store {
    fn open(disk: Disk) -> Result<Store, KvsError> {
        let mut state = KvStoreWriter::new();
        let generations: Vec<u64> = disk.files.keys().copied().collect();
        for g in generations {
            let bytes = disk.files[&g].clone();
            state.load_command_file(g, &bytes)?;
        }
        let mut disk = disk;
        disk.files.entry(state.writer_offset().generation).or_default();
        Ok(Store { disk, state })
    }

    fn fresh() -> Store {
        Store::open(Disk { files: BTreeMap::new() }).unwrap()
    }

    fn reopen(self) -> Store {
        Store::open(self.disk).unwrap()
    }

    fn append(&mut self, pending: kvs::kvstore::PendingWrite) -> Result<(), KvsError> {
        let g = self.state.writer_offset().generation;
        self.disk.files.get_mut(&g).unwrap().extend_from_slice(pending.bytes());
        if self.state.commit(pending)? {
            let sources: Vec<(u64, Vec<u8>)> = self
                .state
                .generations()
                .iter()
                .map(|g| (*g, self.disk.files[g].clone()))
                .collect();
            let plan = self.state.plan_compaction(&sources)?;
            self.disk.files.insert(plan.generation(), plan.bytes().to_vec());
            for g in self.state.apply_compaction(plan) {
                self.disk.files.remove(&g);
            }
            self.disk.files.insert(self.state.writer_offset().generation, Vec::new());
        }
        Ok(())
    }

    fn set(&mut self, key: &str, value: &str) -> Result<(), KvsError> {
        let p = self.state.prepare_set(key.to_string(), value.to_string())?;
        self.append(p)
    }

    fn remove(&mut self, key: &str) -> Result<(), KvsError> {
        let p = self.state.prepare_remove(key.to_string())?;
        self.append(p)
    }

    fn get(&self, key: &str) -> Result<Option<String>, KvsError> {
        match self.state.lookup(&key.to_string()) {
            None => Ok(None),
            Some(at) => {
                let file = &self.disk.files[&at.generation];
                Ok(Some(KvStoreReader::value_at(&file[at.offset as usize..], 0)?))
            }
        }
    }

    fn total_bytes(&self) -> usize {
        self.disk.files.values().map(|f| f.len()).sum()
    }
}

#[test]
fn fresh_store_set_and_get() {
    let mut s = Store::fresh();
    s.set("a", "1").unwrap();
    s.set("b", "2").unwrap();
    assert_eq!(s.get("a").unwrap(), Some("1".to_string()));
    assert_eq!(s.get("b").unwrap(), Some("2".to_string()));
    assert_eq!(s.get("c").unwrap(), None);
}

#[test]
fn overwrite_survives_reopen() {
    let mut s = Store::fresh();
    s.set("k", "v1").unwrap();
    s.set("k", "v2").unwrap();
    assert_eq!(s.get("k").unwrap(), Some("v2".to_string()));
    let s = s.reopen();
    assert_eq!(s.get("k").unwrap(), Some("v2".to_string()));
}

#[test]
fn remove_then_get_and_remove_again() {
    let mut s = Store::fresh();
    s.set("k", "v").unwrap();
    s.remove("k").unwrap();
    assert_eq!(s.get("k").unwrap(), None);
    assert!(matches!(s.remove("k"), Err(KvsError::KeyNotFound)));
}

#[test]
fn remove_of_absent_key_writes_nothing() {
    let mut s = Store::fresh();
    let before = s.total_bytes();
    assert!(matches!(s.remove("nothing"), Err(KvsError::KeyNotFound)));
    assert_eq!(s.total_bytes(), before);
}

#[test]
fn removed_keys_stay_removed_after_reopen() {
    let mut s = Store::fresh();
    s.set("a", "1").unwrap();
    s.set("b", "2").unwrap();
    s.remove("a").unwrap();
    let s = s.reopen();
    assert_eq!(s.get("a").unwrap(), None);
    assert_eq!(s.get("b").unwrap(), Some("2".to_string()));
}

#[test]
fn empty_key_and_value_and_escapes() {
    let mut s = Store::fresh();
    s.set("", "").unwrap();
    s.set("q\"uote\\", "line\nbreak \u{1} ünï").unwrap();
    let s = s.reopen();
    assert_eq!(s.get("").unwrap(), Some(String::new()));
    assert_eq!(s.get("q\"uote\\").unwrap(), Some("line\nbreak \u{1} ünï".to_string()));
}

#[test]
fn compaction_bounds_disk_use() {
    let mut s = Store::fresh();
    let value = "x".repeat(200);
    for i in 0..10_000 {
        s.set(&format!("key{i}"), &value).unwrap();
    }
    let live: usize = 10_000 * (value.len() + 8);
    assert!(s.disk.files.len() >= 1);
    assert!(s.total_bytes() as u64 <= live as u64 * 2 + COMPACTION_THRESHOLD);
    for i in (0..10_000).step_by(997) {
        assert_eq!(s.get(&format!("key{i}")).unwrap(), Some(value.clone()));
    }
    // overwriting the same keys again keeps the bound
    for i in 0..10_000 {
        s.set(&format!("key{i}"), &value).unwrap();
    }
    assert!(s.total_bytes() as u64 <= live as u64 * 2 + COMPACTION_THRESHOLD);
    let s = s.reopen();
    assert_eq!(s.get("key9999").unwrap(), Some(value.clone()));
}

#[test]
fn compaction_resets_counter_and_moves_writer() {
    let mut s = Store::fresh();
    let value = "y".repeat(1024);
    let mut i = 0;
    while s.state.writer_offset().generation == 0 {
        s.set(&format!("k{i}"), &value).unwrap();
        i += 1;
    }
    // generation 1 holds the compacted records, generation 2 is the writer's
    assert_eq!(s.state.writer_offset().generation, 2);
    assert_eq!(s.state.generations(), vec![1, 2]);
    assert!(s.state.uncompaction_size() < COMPACTION_THRESHOLD);
    assert!(!s.disk.files.contains_key(&0));
    assert_eq!(s.get("k0").unwrap(), Some(value.clone()));
}

#[test]
fn two_writers_on_disjoint_ranges() {
    let mut s = Store::fresh();
    for i in 0..1000 {
        s.set(&format!("a{i}"), &format!("va{i}")).unwrap();
        s.set(&format!("b{i}"), &format!("vb{i}")).unwrap();
    }
    for i in 0..1000 {
        assert_eq!(s.get(&format!("a{i}")).unwrap(), Some(format!("va{i}")));
        assert_eq!(s.get(&format!("b{i}")).unwrap(), Some(format!("vb{i}")));
    }
}

#[test]
fn reopen_counts_replayed_bytes_as_uncompacted() {
    let mut s = Store::fresh();
    s.set("a", "1").unwrap();
    s.set("a", "2").unwrap();
    let total = s.total_bytes() as u64;
    let s = s.reopen();
    assert_eq!(s.state.uncompaction_size(), total);
    assert_eq!(s.state.writer_offset().generation, 1);
    assert_eq!(s.state.writer_offset().offset, 0);
}

#[test]
fn corrupt_tail_fails_open() {
    let mut s = Store::fresh();
    s.set("a", "1").unwrap();
    let mut disk = s.disk;
    disk.files.get_mut(&0).unwrap().extend_from_slice(b"{\"Set\":{\"key\":\"b");
    assert!(Store::open(disk).is_err());
}

#[test]
fn generations_exhausted_refuse_compaction() {
    let mut state = KvStoreWriter::new();
    state.load_command_file(u64::MAX - 1, &[]).unwrap();
    assert_eq!(state.writer_offset().generation, u64::MAX);
    let sources = vec![(u64::MAX - 1, Vec::new()), (u64::MAX, Vec::new())];
    assert!(matches!(state.plan_compaction(&sources), Err(KvsError::Overflow)));
    assert_eq!(state.generations(), vec![u64::MAX - 1, u64::MAX]);
}

#[test]
fn compaction_keeps_values_and_drops_history() {
    let mut state = KvStoreWriter::new();
    let mut file = Vec::new();
    for (k, v) in [("a", "1"), ("b", "2"), ("a", "3")] {
        let p = state.prepare_set(k.to_string(), v.to_string()).unwrap();
        file.extend_from_slice(p.bytes());
        assert_eq!(state.commit(p).unwrap(), false);
    }
    let p = state.prepare_remove("b".to_string()).unwrap();
    file.extend_from_slice(p.bytes());
    state.commit(p).unwrap();
    let plan = state.plan_compaction(&vec![(0, file)]).unwrap();
    assert_eq!(plan.generation(), 1);
    assert_eq!(plan.bytes(), br#"{"Set":{"key":"a","value":"3"}}"#);
    // planning changes nothing
    let at = state.lookup(&"a".to_string()).unwrap();
    assert_eq!(at.generation, 0);
    assert_eq!(state.apply_compaction(plan), vec![0]);
    assert_eq!(state.uncompaction_size(), 0);
    let at = state.lookup(&"a".to_string()).unwrap();
    assert_eq!((at.generation, at.offset), (1, 0));
    assert!(state.lookup(&"b".to_string()).is_none());
}

#[test]
fn compaction_with_missing_source_changes_nothing() {
    let mut state = KvStoreWriter::new();
    let p = state.prepare_set("a".to_string(), "1".to_string()).unwrap();
    state.commit(p).unwrap();
    assert!(matches!(state.plan_compaction(&Vec::new()), Err(KvsError::CorruptLog)));
    assert_eq!(state.writer_offset().generation, 0);
    let at = state.lookup(&"a".to_string()).unwrap();
    assert_eq!((at.generation, at.offset), (0, 0));
}

#[test]
fn compaction_writes_keys_in_ascending_order() {
    let mut state = KvStoreWriter::new();
    let mut file = Vec::new();
    for (k, v) in [("b", "2"), ("a", "1")] {
        let p = state.prepare_set(k.to_string(), v.to_string()).unwrap();
        file.extend_from_slice(p.bytes());
        state.commit(p).unwrap();
    }
    let plan = state.plan_compaction(&vec![(0, file)]).unwrap();
    assert_eq!(
        plan.bytes(),
        br#"{"Set":{"key":"a","value":"1"}}{"Set":{"key":"b","value":"2"}}"#
    );
    state.apply_compaction(plan);
    let at = state.lookup(&"b".to_string()).unwrap();
    assert_eq!((at.generation, at.offset), (1, 31));
}
