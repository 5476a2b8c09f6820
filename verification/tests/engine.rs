use ferrumdb::compaction::{compact_records, Compaction};
use ferrumdb::engine::{delete_op, PriorValue, StorageEngine};
use ferrumdb::oplog::{value_in_record, IndexEntry, LogOp, Transaction};
use ferrumdb::policy::FsyncPolicy;
use ferrumdb::record::{frame_record, scan_log, RecordSpan};
use std::collections::HashMap;

/// An in-memory database driving the engine the way the file-backed one does.
struct Db {
    core: StorageEngine,
    log: Vec<u8>,
    records: HashMap<u64, LogOp>,
}

fn copy_op(op: &LogOp) -> LogOp {
    match op {
        LogOp::Put { key, value, expiry } => LogOp::Put { key: key.clone(), value: value.clone(), expiry: *expiry },
        LogOp::Delete { key } => LogOp::Delete { key: key.clone() },
        LogOp::Transaction { ops } => LogOp::Transaction { ops: ops.iter().map(copy_op).collect() },
    }
}

fn encode(op: &LogOp) -> Vec<u8> {
    format!("{:?}", op).into_bytes()
}

fn text(v: serde_json::Value) -> String {
    v.to_string()
}

fn doc(pairs: &[(&str, &str)]) -> String {
    let mut m = serde_json::Map::new();
    for (k, v) in pairs {
        m.insert(k.to_string(), serde_json::Value::String(v.to_string()));
    }
    text(serde_json::Value::Object(m))
}

impl Db {
    fn new() -> Self {
        Db { core: StorageEngine::new(FsyncPolicy::Always), log: Vec::new(), records: HashMap::new() }
    }

    fn append(&mut self, op: LogOp) -> RecordSpan {
        let data = encode(&op);
        self.log.extend(frame_record(&data));
        let span = self.core.record_append(data.len() as u64);
        self.records.insert(span.offset, op);
        span
    }

    fn read(&self, e: IndexEntry, key: &str) -> Option<String> {
        value_in_record(&self.records[&e.offset], key)
    }

    fn get(&mut self, key: &str, now: u128) -> Option<String> {
        let e = self.core.get(key, now)?;
        self.read(e, key)
    }

    fn set(&mut self, key: &str, value: String, expiry: Option<u128>) -> Option<String> {
        let op = LogOp::Put { key: key.into(), value, expiry };
        let old = self.core.pending_read(&op).and_then(|e| self.read(e, key));
        let span = self.append(copy_op(&op));
        self.core.apply_committed_op(&op, span, old.as_deref());
        old
    }

    fn delete(&mut self, key: &str) -> Option<String> {
        let old = self.core.lookup(key).and_then(|e| self.read(e, key));
        if let Some(op) = delete_op(key, old.as_deref()) {
            let span = self.append(copy_op(&op));
            self.core.apply_committed_op(&op, span, old.as_deref());
        }
        old
    }

    fn commit(&mut self, ops: Vec<LogOp>) {
        if ops.is_empty() {
            return;
        }
        let span = self.append(LogOp::Transaction { ops: ops.iter().map(copy_op).collect() });
        for (i, op) in ops.iter().enumerate() {
            let key = match op {
                LogOp::Put { key, .. } | LogOp::Delete { key } => key.clone(),
                LogOp::Transaction { .. } => continue,
            };
            let old = match self.core.prior_value(&ops, i) {
                PriorValue::InBatch(v) => v,
                PriorValue::Stored(e) => e.and_then(|e| self.read(e, &key)),
            };
            self.core.apply_committed_op(op, span, old.as_deref());
        }
    }

    fn create_index(&mut self, field: &str) {
        let docs: Vec<(String, String)> = self
            .core
            .entries()
            .into_iter()
            .filter_map(|(k, e)| self.read(e, &k).map(|v| (k, v)))
            .collect();
        self.core.create_index(field, &docs);
    }

    fn recovered(&self) -> Db {
        let scan = scan_log(&self.log);
        let ops: Vec<Option<LogOp>> = scan.records.iter().map(|s| Some(copy_op(&self.records[&s.offset]))).collect();
        let (core, keep) = StorageEngine::recover(FsyncPolicy::Always, &self.log, &ops).unwrap();
        assert_eq!(keep as usize, self.log.len());
        Db {
            core,
            log: self.log.clone(),
            records: self.records.iter().map(|(k, v)| (*k, copy_op(v))).collect(),
        }
    }
}

fn sorted(mut v: Vec<String>) -> Vec<String> {
    v.sort();
    v
}

#[test]
fn test_set_get_delete() {
    let mut db = Db::new();
    assert!(db.get("key", 0).is_none());
    db.set("key", text("value".into()), None);
    assert_eq!(db.get("key", 0).unwrap(), text("value".into()));
    db.delete("key");
    assert!(db.get("key", 0).is_none());
}

#[test]
fn test_recovery() {
    let mut db = Db::new();
    db.set("k1", text("v1".into()), None);
    db.set("k2", text("v2".into()), None);
    db.delete("k1");
    let mut db = db.recovered();
    assert_eq!(db.get("k2", 0).unwrap(), text("v2".into()));
    assert!(db.get("k1", 0).is_none());
    assert_eq!(db.core.len(), 1);
}

#[test]
fn test_concurrent_access() {
    let mut db = Db::new();
    for i in 0..100 {
        db.set(&format!("k{i}"), text(format!("v{i}").into()), None);
    }
    assert_eq!(db.core.len(), 100);
    assert_eq!(db.get("k50", 0).unwrap(), text("v50".into()));
}

#[test]
fn test_secondary_indexing() {
    let mut db = Db::new();
    db.set("u1", doc(&[("name", "alice"), ("role", "admin")]), None);
    db.set("u2", doc(&[("name", "bob"), ("role", "user")]), None);
    db.set("u3", doc(&[("name", "charlie"), ("role", "admin")]), None);
    db.create_index("role");
    let admin = text("admin".into());
    let admins = db.core.get_by_index("role", &admin);
    assert_eq!(admins.len(), 2);
    assert!(admins.contains(&"u1".to_string()));
    assert!(admins.contains(&"u3".to_string()));

    db.set("u2", doc(&[("name", "bob"), ("role", "admin")]), None);
    assert_eq!(db.core.get_by_index("role", &admin).len(), 3);

    db.delete("u3");
    let admins_final = db.core.get_by_index("role", &admin);
    assert_eq!(admins_final.len(), 2);
    assert!(!admins_final.contains(&"u3".to_string()));
}

#[test]
fn test_transactions() {
    let mut db = Db::new();
    db.create_index("tag");
    let tx = Transaction::new()
        .set("k1".into(), doc(&[("tag", "blue")]))
        .set("k2".into(), doc(&[("tag", "red")]))
        .delete("k1".into());
    db.commit(tx.build());

    assert!(db.get("k1", 0).is_none());
    assert!(db.get("k2", 0).is_some());
    let red_items = db.core.get_by_index("tag", &text("red".into()));
    assert_eq!(red_items.len(), 1);
    assert_eq!(red_items[0], "k2");

    let mut recovered = db.recovered();
    assert!(recovered.get("k1", 0).is_none());
    assert!(recovered.get("k2", 0).is_some());
}

#[test]
fn transaction_builder_keeps_order() {
    let ops = Transaction::new()
        .set("a".into(), "1".into())
        .set_ex("b".into(), "2".into(), 5, 10)
        .delete("a".into())
        .build();
    assert_eq!(
        ops,
        vec![
            LogOp::Put { key: "a".into(), value: "1".into(), expiry: None },
            LogOp::Put { key: "b".into(), value: "2".into(), expiry: Some(15) },
            LogOp::Delete { key: "a".into() },
        ]
    );
}

#[test]
fn expired_keys_are_not_returned() {
    let mut db = Db::new();
    db.set("s", text("tok".into()), Some(1_000));
    assert_eq!(db.get("s", 999).unwrap(), text("tok".into()));
    assert_eq!(db.get("s", 1_000).unwrap(), text("tok".into()));
    assert!(db.get("s", 1_001).is_none());
    // Expired keys are evicted on read.
    assert_eq!(db.core.len(), 0);
    assert!(db.core.keys().is_empty());
}

#[test]
fn expired_key_leaves_secondary_index_on_read() {
    let mut db = Db::new();
    db.create_index("tag");
    db.set("a", doc(&[("tag", "x")]), Some(10));
    db.set("b", doc(&[("tag", "x")]), None);
    let x = text("x".into());
    assert_eq!(sorted(db.core.get_by_index("tag", &x)), vec!["a".to_string(), "b".to_string()]);
    assert!(db.get("a", 11).is_none());
    assert_eq!(db.core.get_by_index("tag", &x), vec!["b".to_string()]);
    assert_eq!(db.core.len(), 1);
}

#[test]
fn key_deleted_in_batch_leaves_its_bucket() {
    let mut db = Db::new();
    db.create_index("tag");
    let tx = Transaction::new()
        .set("k1".into(), doc(&[("tag", "blue")]))
        .set("k2".into(), doc(&[("tag", "red")]))
        .delete("k1".into());
    db.commit(tx.build());
    assert!(db.core.get_by_index("tag", &text("blue".into())).is_empty());
    assert_eq!(db.core.get_by_index("tag", &text("red".into())), vec!["k2".to_string()]);
}

#[test]
fn key_rewritten_in_batch_moves_bucket() {
    let mut db = Db::new();
    db.create_index("tag");
    db.set("k", doc(&[("tag", "a")]), None);
    let tx = Transaction::new()
        .set("k".into(), doc(&[("tag", "b")]))
        .set("k".into(), doc(&[("tag", "c")]));
    db.commit(tx.build());
    assert!(db.core.get_by_index("tag", &text("a".into())).is_empty());
    assert!(db.core.get_by_index("tag", &text("b".into())).is_empty());
    assert_eq!(db.core.get_by_index("tag", &text("c".into())), vec!["k".to_string()]);
}

#[test]
fn prior_value_looks_in_batch_first() {
    let mut db = Db::new();
    db.set("k", "1".into(), None);
    let ops = vec![
        LogOp::Put { key: "k".into(), value: "2".into(), expiry: None },
        LogOp::Delete { key: "k".into() },
        LogOp::Put { key: "j".into(), value: "3".into(), expiry: None },
    ];
    match db.core.prior_value(&ops, 0) {
        PriorValue::Stored(Some(e)) => assert_eq!(db.read(e, "k"), Some("1".into())),
        _ => panic!("expected the stored entry"),
    }
    match db.core.prior_value(&ops, 1) {
        PriorValue::InBatch(v) => assert_eq!(v, Some("2".into())),
        _ => panic!("expected a value from the batch"),
    }
    assert!(matches!(db.core.prior_value(&ops, 2), PriorValue::Stored(None)));
}

#[test]
fn corrupt_trailing_records_are_skipped() {
    let mut db = Db::new();
    db.set("a", "1".into(), None);
    db.set("b", "2".into(), None);
    let scan = scan_log(&db.log);
    let first = copy_op(&db.records[&scan.records[0].offset]);
    let cut = scan.records[1].offset - 8;
    let (core, keep) = StorageEngine::recover(FsyncPolicy::Always, &db.log, &vec![Some(first), None]).unwrap();
    assert_eq!(keep, cut);
    assert_eq!(core.write_offset(), cut);
    assert_eq!(core.keys(), vec!["a".to_string()]);
}

#[test]
fn corrupt_record_before_good_one_is_an_error() {
    let mut db = Db::new();
    db.set("a", "1".into(), None);
    db.set("b", "2".into(), None);
    let scan = scan_log(&db.log);
    let second = copy_op(&db.records[&scan.records[1].offset]);
    let r = StorageEngine::recover(FsyncPolicy::Always, &db.log, &vec![None, Some(second)]);
    assert_eq!(r.err(), Some(0));
}

#[test]
fn incomplete_tail_is_cut_off() {
    let mut db = Db::new();
    db.set("a", "1".into(), None);
    let whole = db.log.len() as u64;
    let mut log = db.log.clone();
    log.extend_from_slice(&[9, 0, 0, 0, 0, 0, 0, 0, 1, 2]);
    let scan = scan_log(&log);
    let ops: Vec<Option<LogOp>> = scan.records.iter().map(|s| Some(copy_op(&db.records[&s.offset]))).collect();
    let (core, keep) = StorageEngine::recover(FsyncPolicy::Always, &log, &ops).unwrap();
    assert_eq!(keep, whole);
    assert_eq!(core.write_offset(), whole);
}

#[test]
fn set_returns_previous_value() {
    let mut db = Db::new();
    assert_eq!(db.set("k", "1".into(), None), None);
    assert_eq!(db.set("k", "2".into(), None), Some("1".into()));
    assert_eq!(db.delete("k"), Some("2".into()));
    assert_eq!(db.delete("k"), None);
}

#[test]
fn value_in_transaction_record_is_last_write() {
    let op = LogOp::Transaction {
        ops: vec![
            LogOp::Put { key: "a".into(), value: "1".into(), expiry: None },
            LogOp::Put { key: "b".into(), value: "2".into(), expiry: None },
            LogOp::Put { key: "a".into(), value: "3".into(), expiry: None },
        ],
    };
    assert_eq!(value_in_record(&op, "a"), Some("3".into()));
    assert_eq!(value_in_record(&op, "b"), Some("2".into()));
    assert_eq!(value_in_record(&op, "c"), None);
    let op = LogOp::Transaction {
        ops: vec![
            LogOp::Put { key: "a".into(), value: "1".into(), expiry: None },
            LogOp::Delete { key: "a".into() },
        ],
    };
    assert_eq!(value_in_record(&op, "a"), None);
    assert_eq!(value_in_record(&LogOp::Delete { key: "a".into() }, "a"), None);
}

#[test]
fn keys_and_entries() {
    let mut db = Db::new();
    db.set("x", "1".into(), None);
    db.set("y", "2".into(), None);
    db.set("x", "3".into(), None);
    assert_eq!(sorted(db.core.keys()), vec!["x".to_string(), "y".to_string()]);
    assert_eq!(db.core.entries().len(), 2);
}

#[test]
fn record_append_advances_offset() {
    let mut db = Db::new();
    let s1 = db.append(LogOp::Delete { key: "a".into() });
    assert_eq!(s1.offset, 8);
    let s2 = db.append(LogOp::Delete { key: "b".into() });
    assert_eq!(s2.offset, s1.offset + s1.size + 8);
    assert_eq!(&db.log[s2.offset as usize..(s2.offset + s2.size) as usize], &encode(&LogOp::Delete { key: "b".into() })[..]);
}

#[test]
fn compaction_keeps_live_keys() {
    let mut db = Db::new();
    db.set("keep", "1".into(), None);
    db.set("short", "2".into(), Some(50));
    db.set("later", "3".into(), Some(500));
    db.set("gone", "4".into(), None);
    db.delete("gone");
    let now = 100;
    let live = db.core.live_entries(now);
    let mut names: Vec<String> = live.iter().map(|(k, _)| k.clone()).collect();
    names.sort();
    assert_eq!(names, vec!["keep".to_string(), "later".to_string()]);

    let mut c = Compaction::new();
    let mut new_log = Vec::new();
    let mut new_records = HashMap::new();
    for (k, e) in &live {
        let value = db.read(*e, k).unwrap();
        let op = LogOp::Put { key: k.clone(), value, expiry: e.expiry };
        let data = encode(&op);
        let before = new_log.len() as u64;
        new_log.extend(c.add(k.clone(), &data, e.expiry));
        new_records.insert(before + 8, op);
    }
    db.core.install_compacted(c);
    db.log = new_log;
    db.records = new_records;
    assert_eq!(db.core.len(), 2);
    assert_eq!(db.get("keep", now).unwrap(), "1");
    assert_eq!(db.get("later", now).unwrap(), "3");
    assert!(db.get("short", now).is_none());
    let mut again = db.recovered();
    assert_eq!(again.get("later", now).unwrap(), "3");
    assert_eq!(again.core.len(), 2);
}

#[test]
fn compact_records_skips_unreadable_keys() {
    let mut db = Db::new();
    db.set("a", "1".into(), None);
    db.set("b", "2".into(), Some(900));
    db.set("c", "3".into(), None);
    let live = db.core.live_entries(100);
    let records: Vec<Option<Vec<u8>>> = live
        .iter()
        .map(|(k, e)| if k == "c" { None } else { Some(encode(&LogOp::Put { key: k.clone(), value: db.read(*e, k).unwrap(), expiry: e.expiry })) })
        .collect();
    let (c, framed) = compact_records(&live, &records).unwrap();
    assert_eq!(framed.len(), 2);
    let log: Vec<u8> = framed.concat();

    assert_eq!(scan_log(&log).records.len(), 2);
    db.core.install_compacted(c);
    // Each kept key locates its own record in the new log.
    for (i, (k, _)) in live.iter().enumerate() {
        if let Some(d) = &records[i] {
            let e = db.core.lookup(k).unwrap();
            assert_eq!(&log[e.offset as usize..(e.offset + e.size) as usize], &d[..]);
        }
    }
    let mut keys = db.core.keys();
    keys.sort();
    assert_eq!(keys, vec!["a".to_string(), "b".to_string()]);
    assert_eq!(db.core.lookup("b").unwrap().expiry, Some(900));
}

#[test]
fn delete_writes_only_for_present_keys() {
    assert_eq!(delete_op("k", None), None);
    assert_eq!(delete_op("k", Some("\"v\"")), Some(LogOp::Delete { key: "k".into() }));
}
