use tokactordb::builder::TreeBuilder;
use tokactordb::codec::KeyWidth;
use tokactordb::database::{Database, DbError};
use tokactordb::entry::{replay, Item};
use tokactordb::tree::{Lookup, VersionedTree};

fn counters(db: &mut Database) -> usize {
    TreeBuilder::new(
        "Counters",
        KeyWidth::U32,
        "U32",
        "Counter",
        br#"{"name":"","count":0}"#.to_vec(),
        vec![0_u8; 16],
    )
    .open(db)
    .unwrap()
}

fn current(l: Lookup) -> Vec<u8> {
    match l {
        Lookup::Current(v) => v,
        other => panic!("expected a current record, found {:?}", other),
    }
}

fn a() -> Vec<u8> {
    br#"{"name":"a","count":0}"#.to_vec()
}

fn b() -> Vec<u8> {
    br#"{"name":"b","count":0}"#.to_vec()
}

fn two_counters() -> (Database, usize) {
    let mut db = Database::new();
    let t = counters(&mut db);
    assert!(db.restore(&[]).is_ok());
    let (k0, arm0) = db.insert(t, a(), 1).unwrap();
    let (k1, arm1) = db.insert(t, b(), 2).unwrap();
    assert_eq!(k0, 0);
    assert_eq!(k1, 1);
    assert!(arm0);
    assert!(!arm1);
    assert_eq!(db.complete_flush(true).unwrap().len(), 2);
    (db, t)
}

#[test]
fn test_test() {
    let mut db = Database::new();
    let t = TreeBuilder::new("example", KeyWidth::U32, "U32", "Counter", b"{}".to_vec(), vec![])
        .open(&mut db)
        .unwrap();
    db.restore(&[]).unwrap();
    let counter = br#"{"name":"test","count":0}"#.to_vec();
    let (id, _) = db.insert(t, counter.clone(), 7).unwrap();
    assert_eq!(current(db.tree(t).get(id)), counter);
}

#[test]
fn primary_roundtrip() {
    let (db, t) = two_counters();
    assert_eq!(current(db.tree(t).get(0)), a());
    assert_eq!(current(db.tree(t).get(1)), b());
    let (first, fl) = db.tree(t).get_first().unwrap();
    assert_eq!(first, vec![0, 0, 0, 0]);
    assert_eq!(current(fl), a());
    let (last, ll) = db.tree(t).get_last().unwrap();
    assert_eq!(last, vec![0, 0, 0, 1]);
    assert_eq!(current(ll), b());
    assert!(matches!(db.tree(t).get(2), Lookup::Absent));
    let all = db.tree(t).list();
    assert_eq!(all.len(), 2);
}

#[test]
fn recovery_reads_the_same() {
    let (db, t) = two_counters();
    let log = db.log().clone();
    let mut db2 = Database::new();
    let t2 = counters(&mut db2);
    let report = db2.restore(&log).unwrap();
    assert_eq!(report.corrupt, 0);
    assert_eq!(report.restored.len(), 2);
    assert_eq!(current(db2.tree(t2).get(0)), current(db.tree(t).get(0)));
    assert_eq!(current(db2.tree(t2).get(1)), current(db.tree(t).get(1)));
    assert_eq!(db2.log(), db.log());
    // A third generation reads the same again.
    let mut db3 = Database::new();
    let t3 = counters(&mut db3);
    db3.restore(db2.log()).unwrap();
    assert_eq!(db3.tree(t3).list().len(), 2);
    assert_eq!(current(db3.tree(t3).get(1)), b());
}

#[test]
fn entries_replay_once_each() {
    let e = Item::new(b"Counters".to_vec(), 99, 0, vec![0, 0, 0, 5], Some(a()));
    let f = Item::new(b"Counters".to_vec(), 100, 0, vec![0, 0, 0, 6], None);
    assert!(e.is_valid());
    let mut log = e.encode();
    log.extend(f.encode());
    let r = replay(&log);
    assert_eq!(r.corrupt, 0);
    assert_eq!(r.items.len(), 2);
    assert_eq!(r.items[0].key, vec![0, 0, 0, 5]);
    assert_eq!(r.items[0].value, Some(a()));
    assert_eq!(r.items[0].timestamp, 99);
    assert_eq!(r.items[0].crc, e.crc);
    assert_eq!(r.items[1].value, None);
    // A cut-off frame at the end is not read.
    let cut = &log[..log.len() - 3];
    assert_eq!(replay(cut).items.len(), 1);
}

#[test]
fn corrupt_entry_is_dropped() {
    let e1 = Item::new(b"Counters".to_vec(), 1, 0, vec![0, 0, 0, 0], Some(a()));
    let mut e2 = Item::new(b"Counters".to_vec(), 2, 0, vec![0, 0, 0, 1], Some(b()));
    e2.crc ^= 1;
    assert!(!e2.is_valid());
    let e3 = Item::new(b"Counters".to_vec(), 3, 0, vec![0, 0, 0, 2], Some(b()));
    let mut log = e1.encode();
    log.extend(e2.encode());
    log.extend(e3.encode());
    let mut db = Database::new();
    let t = counters(&mut db);
    let report = db.restore(&log).unwrap();
    assert_eq!(report.corrupt, 1);
    assert_eq!(report.restored.len(), 2);
    assert!(matches!(db.tree(t).get(1), Lookup::Absent));
    assert_eq!(current(db.tree(t).get(2)), b());
    let before = db.log().len();
    let (k, _) = db.insert(t, a(), 4).unwrap();
    assert_eq!(k, 3);
    assert!(db.complete_flush(true).is_ok());
    assert!(db.log().len() > before);
    assert_eq!(replay(db.log()).items.len(), 3);
}

#[test]
fn failed_flush_rolls_back() {
    let (mut db, t) = two_counters();
    let log_before = db.log().clone();
    let (k, _) = db.insert(t, a(), 9).unwrap();
    assert_eq!(k, 2);
    assert!(db.update(t, 0, b(), 10).is_ok());
    assert_eq!(current(db.tree(t).get(0)), b());
    assert_eq!(db.complete_flush(false).err(), Some(DbError::Durability));
    assert!(matches!(db.tree(t).get(2), Lookup::Absent));
    assert_eq!(current(db.tree(t).get(0)), a());
    assert_eq!(db.log(), &log_before);
    assert!(!db.timer_armed());
    let (k, _) = db.insert(t, a(), 11).unwrap();
    assert_eq!(k, 2);
}

#[test]
fn keys_increase() {
    let mut db = Database::new();
    let t = TreeBuilder::new("small", KeyWidth::U8, "U8", "V", vec![], vec![])
        .open(&mut db)
        .unwrap();
    db.restore(&[]).unwrap();
    let mut last: Option<u64> = None;
    for i in 0..256u32 {
        let (k, _) = db.insert(t, vec![i as u8], i as u128).unwrap();
        if let Some(l) = last {
            assert!(k > l);
        }
        last = Some(k);
    }
    assert_eq!(last, Some(255));
    assert_eq!(db.insert(t, vec![1], 0).err(), Some(DbError::KeysExhausted));
    assert_eq!(db.update(t, 300, vec![1], 0).err(), Some(DbError::InvalidKey));
}

#[test]
fn migration_upgrades_lazily() {
    let builder = TreeBuilder::new(
        "Boards",
        KeyWidth::U32,
        "U32",
        "Board",
        br#"{"name":""}"#.to_vec(),
        vec![0; 8],
    )
    .migrate(
        KeyWidth::U32,
        "U32",
        "BoardV2",
        br#"{"name":"","name_len":0}"#.to_vec(),
        vec![0; 16],
    )
    .unwrap();
    let old = Item::new(b"Boards".to_vec(), 1, 0, vec![0, 0, 0, 0], Some(br#"{"name":"abc"}"#.to_vec()));
    let mut db = Database::new();
    let t = builder.open(&mut db).unwrap();
    db.restore(&old.encode()).unwrap();
    let stale = match db.tree(t).get(0) {
        Lookup::Stale { version, data } => {
            assert_eq!(version, 0);
            data
        }
        other => panic!("expected a stale record, found {:?}", other),
    };
    let v: serde_json::Value = serde_json::from_slice(&stale).unwrap();
    let name = v.get("name").and_then(|n| n.as_str()).unwrap().to_string();
    let mut upgraded = serde_json::Map::new();
    upgraded.insert("name".to_string(), serde_json::Value::String(name.clone()));
    upgraded.insert(
        "name_len".to_string(),
        serde_json::Value::from(name.len() as u64),
    );
    let bytes = serde_json::to_vec(&serde_json::Value::Object(upgraded)).unwrap();
    db.update(t, 0, bytes.clone(), 2).unwrap();
    db.complete_flush(true).unwrap();
    assert_eq!(current(db.tree(t).get(0)), bytes);
    // The second read finds the upgraded record and writes nothing.
    assert_eq!(current(db.tree(t).get(0)), bytes);
    assert_eq!(db.pending_len(), 0);
    assert_eq!(db.tree(t).version(), 1);
}

#[test]
fn database_errors() {
    let mut db = Database::new();
    assert_eq!(db.insert(0, a(), 0).err(), Some(DbError::NotRestored));
    let t = counters(&mut db);
    assert_eq!(
        TreeBuilder::new("Counters", KeyWidth::U32, "U32", "Counter", vec![], vec![])
            .open(&mut db)
            .err(),
        Some(DbError::DuplicateTree)
    );
    assert_eq!(
        db.create_tree("empty", KeyWidth::U8, Vec::new()).err(),
        Some(DbError::BadSchema)
    );
    assert_eq!(db.insert(t, a(), 0).err(), Some(DbError::NotRestored));
    let future = Item::new(b"Counters".to_vec(), 1, 3, vec![0, 0, 0, 0], Some(a()));
    assert_eq!(db.restore(&future.encode()).err(), Some(DbError::SchemaMismatch));
    assert!(!db.ready());
    assert!(db.restore(&[]).is_ok());
    assert_eq!(db.restore(&[]).err(), Some(DbError::AlreadyRestored));
    assert_eq!(
        db.create_tree("late", KeyWidth::U8, Vec::new()).err(),
        Some(DbError::AlreadyRestored)
    );
    assert_eq!(db.insert(5, a(), 0).err(), Some(DbError::NoSuchTree));
}

#[test]
fn schema_hash_is_the_iscsi_checksum() {
    let v = VersionedTree::new(0, "", "", "", b"123456789".to_vec(), vec![]);
    assert_eq!(v.hash, 0xe306_9283);
    let e = Item::new(Vec::new(), 0, 0, Vec::new(), None);
    assert_ne!(e.calculate_crc(), 0);
    assert_eq!(e.crc, e.calculate_crc());
}

#[test]
fn pending_bytes_are_the_next_frames() {
    let (mut db, t) = two_counters();
    let before = db.log().clone();
    db.insert(t, a(), 5).unwrap();
    let bytes = db.pending_bytes();
    db.complete_flush(true).unwrap();
    let mut expect = before.clone();
    expect.extend(bytes);
    assert_eq!(db.log(), &expect);
}
