use tokactordb::builder::TreeBuilder;
use tokactordb::codec::{decode_key, encode_key, lex_less, KeyWidth};
use tokactordb::database::{
    Change, ChangeItem, Database, DbError, RestoreDbPath, RestoreItem, Update, UpgradeVersion,
    UpgradedVersion,
};
use tokactordb::entry::{Item, WalRestoredItems};
use tokactordb::fs::{Disk, FNode};
use tokactordb::memtable::MemTable;
use tokactordb::tree::{ListEnd, Lookup};

#[test]
fn memtable_orders_keys() {
    let mut m = MemTable::new();
    assert!(m.is_empty());
    assert_eq!(m.insert(vec![2], 0, Some(vec![20])), 3);
    assert_eq!(m.insert(vec![1], 0, None), 5);
    assert_eq!(m.insert(vec![1, 0], 1, Some(vec![10, 0])), 10);
    assert!(!m.is_empty());
    assert_eq!(m.len(), 3);
    assert_eq!(m.get(&[1]).map(|r| r.data), None);
    assert!(matches!(m.lookup(&[1]), Some(None)));
    assert!(m.lookup(&[9]).is_none());
    assert_eq!(m.get(&[2]).map(|r| (r.version, r.data)), Some((0, vec![20])));
    assert_eq!(m.get_first().map(|e| e.0), Some(vec![1]));
    assert_eq!(m.get_last().map(|e| e.0), Some(vec![2]));
    let keys: Vec<Vec<u8>> = m.as_sorted_vec().into_iter().map(|e| e.0).collect();
    assert_eq!(keys, vec![vec![1], vec![1, 0], vec![2]]);
    m.insert(vec![2], 3, Some(vec![21]));
    assert_eq!(m.get(&[2]).map(|r| (r.version, r.data)), Some((3, vec![21])));
    assert!(m.remove(&[1, 0]).is_some());
    assert_eq!(m.len(), 2);
}

#[test]
fn keys_encode_big_endian() {
    assert_eq!(encode_key(KeyWidth::U32, 258), vec![0, 0, 1, 2]);
    assert_eq!(encode_key(KeyWidth::U16, 1), vec![0, 1]);
    assert_eq!(encode_key(KeyWidth::U8, 7), vec![7]);
    assert_eq!(decode_key(KeyWidth::U64, &encode_key(KeyWidth::U64, u64::MAX)), Some(u64::MAX));
    assert_eq!(decode_key(KeyWidth::U32, &[1, 2]), None);
    assert!(lex_less(&encode_key(KeyWidth::U32, 255), &encode_key(KeyWidth::U32, 256)));
    assert!(lex_less(&[1], &[1, 0]));
    assert!(!lex_less(&[2], &[1, 9]));
}

#[test]
fn files_and_disks() {
    let mut d = Disk::new();
    assert!(d.is_empty());
    assert_eq!(d.write(b"abc"), 3);
    assert!(d.is_empty());
    d.flush();
    assert_eq!(d.as_reader(), &b"abc".to_vec());
    d.truncate();
    assert!(d.is_empty());
    let mut f = FNode::new();
    assert_eq!(f.end_of_file_pointer(), 0);
    f.write(b"hello");
    f.flush();
    assert_eq!(f.end_of_file_pointer(), 5);
    f.truncate();
    assert_eq!(f.end_of_file_pointer(), 0);
}

#[test]
fn restore_path_names_the_log() {
    assert_eq!(RestoreDbPath::new(".db").wal_path(), b".db/wal".to_vec());
    assert_eq!(RestoreDbPath::new("/tmp/db/").wal_path(), b"/tmp/db/wal".to_vec());
}

#[test]
fn message_values() {
    let c = ChangeItem::new(
        2,
        Change { key: vec![1], update: Update::Put { old: None, new: vec![5] } },
    );
    assert_eq!(c.tree, 2);
    let inner = c.into_inner();
    assert_eq!(inner.key, vec![1]);
    let r = RestoreItem::new(1, vec![0], Some(vec![1]), None);
    assert_eq!((r.tree, r.key, r.value, r.prior), (1, vec![0], Some(vec![1]), None));
    let u = UpgradeVersion::new(vec![1], vec![2]);
    assert_eq!((u.past_key, u.past_value), (vec![1], vec![2]));
    let w = WalRestoredItems::new(vec![Item::new(vec![], 0, 0, vec![], None)], 2);
    assert_eq!((w.items.len(), w.corrupt), (1, 2));
}

#[test]
fn list_ends_and_upgrade_write_back() {
    let mut db = Database::new();
    let t = TreeBuilder::new("t", KeyWidth::U16, "U16", "V", vec![], vec![])
        .migrate(KeyWidth::U16, "U16", "W", vec![], vec![])
        .unwrap()
        .open(&mut db)
        .unwrap();
    let old = Item::new(b"t".to_vec(), 0, 0, vec![0, 4], Some(b"v0".to_vec()));
    db.restore(&old.encode()).unwrap();
    assert!(matches!(db.tree(t).list_end(ListEnd::Head), Some((_, Lookup::Stale { version: 0, .. }))));
    assert_eq!(
        db.store_upgraded(5, UpgradedVersion::new(vec![0, 4], b"v1".to_vec()), 1).err(),
        Some(DbError::NoSuchTree)
    );
    assert!(db
        .store_upgraded(t, UpgradedVersion::new(vec![0, 4], b"v1".to_vec()), 1)
        .is_ok());
    db.complete_flush(true).unwrap();
    match db.tree(t).list_end(ListEnd::Tail) {
        Some((k, Lookup::Current(v))) => {
            assert_eq!(k, vec![0, 4]);
            assert_eq!(v, b"v1".to_vec());
        }
        other => panic!("{:?}", other),
    }
    // The next key follows the largest key the log held.
    assert_eq!(db.insert(t, b"n".to_vec(), 2).unwrap().0, 5);
}

#[test]
fn oversized_writes_are_refused() {
    let mut db = Database::new();
    let t = TreeBuilder::new("big", KeyWidth::U8, "U8", "V", vec![], vec![])
        .open(&mut db)
        .unwrap();
    db.restore(&[]).unwrap();
    let huge_key = vec![0_u8; tokactordb::database::MAX_NAME_LEN + 1];
    assert_eq!(
        db.store_upgraded(t, UpgradedVersion::new(huge_key, vec![]), 0).err(),
        Some(DbError::TooLarge)
    );
    assert_eq!(db.pending_len(), 0);
}
