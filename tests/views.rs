use tokactordb::aggregate::{AggregateTree, Observe};
use tokactordb::builder::TreeBuilder;
use tokactordb::codec::{decode_key, KeyWidth};
use tokactordb::database::{Change, Database, ChangeItem, Update};
use tokactordb::index::Index;
use tokactordb::tree::Lookup;

fn ticket(board: u64, state: &str) -> Vec<u8> {
    format!("{}:{}", board, state).into_bytes()
}

fn board_of(v: &[u8]) -> Option<u64> {
    let s = std::str::from_utf8(v).ok()?;
    s.split(':').next()?.parse().ok()
}

fn state_of(v: &[u8]) -> String {
    let s = std::str::from_utf8(v).unwrap();
    s.split(':').nth(1).unwrap().to_string()
}

fn tickets(db: &mut Database) -> usize {
    TreeBuilder::new("Tickets", KeyWidth::U64, "U64", "Ticket", vec![], vec![])
        .open(db)
        .unwrap()
}

fn feed_index(index: &mut Index, changes: &[ChangeItem]) {
    for c in changes {
        let key = decode_key(KeyWidth::U64, &c.change.key).unwrap();
        let update = match &c.change.update {
            Update::Put { old, new } => Update::Put {
                old: old.as_ref().map(|o| board_of(o)),
                new: board_of(new),
            },
            Update::Del { old } => Update::Del { old: board_of(old) },
        };
        index.change(Change { key, update });
    }
}

#[derive(Debug, Default, Clone, Copy, PartialEq, Eq)]
struct BoardStats {
    total: i64,
    todos: i64,
    complete: i64,
    archived: i64,
}

impl BoardStats {
    fn count(&mut self, state: &str, by: i64) {
        match state {
            "todo" => self.todos += by,
            "complete" => self.complete += by,
            "archived" => self.archived += by,
            _ => {}
        }
    }

    fn observe(&mut self, kind: Observe, old: Option<&[u8]>, new: Option<&[u8]>) {
        match kind {
            Observe::Created => {
                self.total += 1;
                self.count(&state_of(new.unwrap()), 1);
            }
            Observe::Updated => {
                self.count(&state_of(old.unwrap()), -1);
                self.count(&state_of(new.unwrap()), 1);
            }
            Observe::Deleted => {
                self.total -= 1;
                self.count(&state_of(old.unwrap()), -1);
            }
        }
    }
}

fn feed_aggregate(
    agg: &mut AggregateTree,
    stats: &mut std::collections::HashMap<u64, BoardStats>,
    key: u64,
    old: Option<&[u8]>,
    new: Option<&[u8]>,
) {
    let from = old.and_then(board_of);
    let to = new.and_then(board_of);
    for o in agg.apply(key, from, to) {
        stats.entry(o.bucket).or_default().observe(o.kind, old, new);
    }
}

#[test]
fn index_tracks_boards() {
    let mut db = Database::new();
    let t = tickets(&mut db);
    db.restore(&[]).unwrap();
    let mut index = Index::new();
    for (i, board) in [7, 7, 9, 7, 9].iter().enumerate() {
        db.insert(t, ticket(*board, "todo"), i as u128).unwrap();
    }
    let changes = db.complete_flush(true).unwrap();
    feed_index(&mut index, &changes);
    assert_eq!(index.list(7).len(), 3);
    assert_eq!(index.list(9).len(), 2);
    assert_eq!(index.list(7), vec![0, 1, 3]);

    // Move the first ticket of board 7 to board 9.
    let key = index.key_at(7, 0).unwrap();
    let value = match db.tree(t).get(key) {
        Lookup::Current(v) => v,
        other => panic!("{:?}", other),
    };
    assert_eq!(board_of(&value), Some(7));
    db.update(t, key, ticket(9, "todo"), 10).unwrap();
    let changes = db.complete_flush(true).unwrap();
    feed_index(&mut index, &changes);
    assert_eq!(index.list(7).len(), 2);
    assert_eq!(index.list(9).len(), 3);
    assert_eq!(index.list(9), vec![2, 4, 0]);
    let values = index.values(db.tree(t), 9);
    assert_eq!(values.len(), 3);
    assert_eq!(values[2].0, 0);
    assert!(matches!(&values[2].1, Lookup::Current(v) if board_of(v) == Some(9)));
    // A key whose record is missing from the source is skipped.
    let mut stray = Index::new();
    stray.apply(77, None, Some(9));
    stray.apply(0, None, Some(9));
    assert_eq!(stray.values(db.tree(t), 9).len(), 1);
    assert_eq!(index.key_at(7, 5), None);

    // Rebuilt from the log, with each replayed record's prior value.
    let mut db2 = Database::new();
    let t2 = tickets(&mut db2);
    let report = db2.restore(db.log()).unwrap();
    let mut index2 = Index::new();
    for r in &report.restored {
        assert_eq!(r.tree, t2);
        let key = decode_key(KeyWidth::U64, &r.key).unwrap();
        index2.apply(
            key,
            r.prior.as_deref().and_then(board_of),
            r.value.as_deref().and_then(board_of),
        );
    }
    assert_eq!(index2.list(7), index.list(7));
    assert_eq!(index2.list(9), index.list(9));
}

#[test]
fn index_change_kinds() {
    let mut index = Index::new();
    index.apply(1, None, Some(3));
    index.apply(2, None, Some(3));
    index.apply(1, Some(3), Some(3));
    assert_eq!(index.list(3), vec![1, 2]);
    index.change(Change { key: 2, update: Update::Del { old: Some(3) } });
    assert_eq!(index.list(3), vec![1]);
    index.change(Change { key: 1, update: Update::Put { old: Some(Some(3)), new: None } });
    assert!(index.list(3).is_empty());
    index.apply(4, None, None);
    assert!(index.list(0).is_empty());
}

#[test]
fn aggregate_board_stats() {
    let mut db = Database::new();
    let t = tickets(&mut db);
    db.restore(&[]).unwrap();
    let mut agg = AggregateTree::new();
    let mut stats = std::collections::HashMap::new();
    let board = 5;
    for i in 0..4u128 {
        db.insert(t, ticket(board, "todo"), i).unwrap();
    }
    for c in db.complete_flush(true).unwrap() {
        let key = decode_key(KeyWidth::U64, &c.change.key).unwrap();
        if let Update::Put { old, new } = &c.change.update {
            feed_aggregate(&mut agg, &mut stats, key, old.as_deref(), Some(new));
        }
    }
    assert_eq!(stats[&board], BoardStats { total: 4, todos: 4, complete: 0, archived: 0 });

    db.update(t, 0, ticket(board, "complete"), 10).unwrap();
    db.update(t, 1, ticket(board, "archived"), 11).unwrap();
    let changes = db.complete_flush(true).unwrap();
    let c0 = &changes[0];
    let key = decode_key(KeyWidth::U64, &c0.change.key).unwrap();
    if let Update::Put { old, new } = &c0.change.update {
        feed_aggregate(&mut agg, &mut stats, key, old.as_deref(), Some(new));
    }
    assert_eq!(stats[&board], BoardStats { total: 4, todos: 3, complete: 1, archived: 0 });
    let c1 = &changes[1];
    let key = decode_key(KeyWidth::U64, &c1.change.key).unwrap();
    if let Update::Put { old, new } = &c1.change.update {
        feed_aggregate(&mut agg, &mut stats, key, old.as_deref(), Some(new));
    }
    assert_eq!(stats[&board], BoardStats { total: 4, todos: 2, complete: 1, archived: 1 });
    assert_eq!(agg.list(board).len(), 4);

    // Replaying the log rebuilds the same totals.
    let mut db2 = Database::new();
    tickets(&mut db2);
    let report = db2.restore(db.log()).unwrap();
    let mut agg2 = AggregateTree::new();
    let mut stats2 = std::collections::HashMap::new();
    for r in &report.restored {
        let key = decode_key(KeyWidth::U64, &r.key).unwrap();
        feed_aggregate(&mut agg2, &mut stats2, key, r.prior.as_deref(), r.value.as_deref());
    }
    assert_eq!(stats2[&board], stats[&board]);
}

#[test]
fn aggregate_moves_between_buckets() {
    let mut agg = AggregateTree::new();
    let created = agg.apply(1, None, Some(2));
    assert_eq!(created.len(), 1);
    assert_eq!(created[0].kind, Observe::Created);
    let moved = agg.apply(1, Some(2), Some(3));
    assert_eq!(moved.len(), 2);
    assert_eq!((moved[0].bucket, moved[0].kind), (2, Observe::Deleted));
    assert_eq!((moved[1].bucket, moved[1].kind), (3, Observe::Created));
    assert!(agg.list(2).is_empty());
    assert_eq!(agg.list(3), vec![1]);
    let same = agg.apply(1, Some(3), Some(3));
    assert_eq!(same.len(), 1);
    assert_eq!(same[0].kind, Observe::Updated);
    let gone = agg.apply(1, Some(3), None);
    assert_eq!(gone[0].kind, Observe::Deleted);
    assert!(agg.apply(1, None, None).is_empty());
    // A key not in the bucket is neither updated nor deleted.
    assert!(agg.apply(9, Some(3), Some(3)).is_empty());
    assert!(agg.apply(9, Some(3), None).is_empty());
}
