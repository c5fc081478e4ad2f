//! The database: its trees, the write-ahead log they share, the writes that
//! wait for the next group commit, and recovery from a log.
use crate::codec::{encode_key, key_bytes, KeyWidth};
use crate::entry::{crc_ok, entry_fits, frame, lemma_small_entry_fits, log_bytes, replay,
    replay_corrupt, replay_valid, Item, EntryModel};
use crate::codec::bytes_eq;
use crate::memtable::{copy_bytes, slot_model, MemRecord, SlotModel};
use crate::tree::{bump, max_covers, next_key_after, VersionedTree, Tree};
use vstd::prelude::*;
use vstd::string::StringSliceAdditionalSpecFns;

verus! {

/// Record the key that was updated along with the state that was changed.
#[derive(Debug)]
pub struct Change<K, V> {
    pub key: K,
    pub update: Update<V>,
}

/// A new record is a `Put` with no old value; an overwrite carries the old
/// value; a deletion carries the value it removed.
#[derive(Debug)]
#[allow(inconsistent_fields)]
pub enum Update<T> {
    Put { old: Option<T>, new: T },
    Del { old: T },
}

/// A committed change of one tree, as subscribers receive it.
#[derive(Debug)]
pub struct ChangeItem {
    pub tree: usize,
    pub change: Change<Vec<u8>, Vec<u8>>,
}

impl ChangeItem {
    pub fn new(tree: usize, change: Change<Vec<u8>, Vec<u8>>) -> (r: ChangeItem)
        ensures
            r.tree == tree,
            r.change == change,
    {
        ChangeItem { tree, change }
    }

    /// The change itself.
    pub fn into_inner(self) -> (r: Change<Vec<u8>, Vec<u8>>)
        ensures
            r == self.change,
    {
        self.change
    }
}

/// A request to upgrade one record by one schema version: its key and value
/// as the older version wrote them.
#[derive(Debug)]
pub struct UpgradeVersion {
    pub past_key: Vec<u8>,
    pub past_value: Vec<u8>,
}

impl UpgradeVersion {
    pub fn new(past_key: Vec<u8>, past_value: Vec<u8>) -> (r: UpgradeVersion)
        ensures
            r.past_key == past_key,
            r.past_value == past_value,
    {
        UpgradeVersion { past_key, past_value }
    }
}

/// A record upgraded to the next schema version.
#[derive(Debug)]
pub struct UpgradedVersion {
    pub key: Vec<u8>,
    pub value: Vec<u8>,
}

impl UpgradedVersion {
    pub fn new(key: Vec<u8>, value: Vec<u8>) -> (r: UpgradedVersion)
        ensures
            r.key == key,
            r.value == value,
    {
        UpgradedVersion { key, value }
    }
}

/// Where a database's files live: the log is the file `wal` in it.
#[derive(Debug)]
pub struct RestoreDbPath {
    pub directory: Vec<u8>,
}

impl RestoreDbPath {
    pub fn new(directory: &str) -> (r: RestoreDbPath)
        ensures
            r.directory@ == directory.spec_bytes(),
    {
        let mut d: Vec<u8> = Vec::new();
        crate::entry::append_all(&mut d, directory.as_bytes());
        RestoreDbPath { directory: d }
    }

    /// The path of the log file.
    pub fn wal_path(&self) -> (r: Vec<u8>)
        ensures
            r@ == crate::fs::join_path(self.directory@, seq![0x77u8, 0x61u8, 0x6cu8]),
    {
        let name: [u8; 3] = [0x77u8, 0x61u8, 0x6cu8];
        assert(name@ =~= seq![0x77u8, 0x61u8, 0x6cu8]);
        crate::fs::join(self.directory.as_slice(), &name)
    }
}

/// Why the database refused an operation.
#[derive(Debug, PartialEq, Eq, Structural)]
pub enum DbError {
    /// A write came before recovery completed.
    NotRestored,
    /// Recovery, or a change of schema, came after recovery completed.
    AlreadyRestored,
    /// No tree has this index.
    NoSuchTree,
    /// A tree of this name exists already.
    DuplicateTree,
    /// A tree needs at least one schema version, and at most `u16::MAX`.
    BadSchema,
    /// The key does not fit the tree's key type.
    InvalidKey,
    /// The tree's key type has no key left to hand out.
    KeysExhausted,
    /// A table name, key or value is longer than this database accepts
    /// (`MAX_NAME_LEN`, `MAX_VALUE_LEN`).
    TooLarge,
    /// A logged entry carries a schema version that its tree does not have.
    SchemaMismatch,
    /// The log could not be written; every write of the batch was undone.
    Durability,
}

/// The slot that an entry writes.
pub open spec fn slot_of(e: EntryModel) -> SlotModel {
    match e.5 {
        Some(v) => Some((e.3, v)),
        None => None,
    }
}

/// The table that a sequence of entries leaves for table `table`, each entry
/// of that table overwriting its key in turn.
pub open spec fn apply_log(es: Seq<EntryModel>, table: Seq<u8>) -> Map<Seq<u8>, SlotModel>
    decreases es.len(),
{
    if es.len() == 0 {
        Map::empty()
    } else {
        let m = apply_log(es.drop_last(), table);
        if es.last().2 == table {
            m.insert(es.last().4, slot_of(es.last()))
        } else {
            m
        }
    }
}

/// Appending an entry changes its own table only.
pub proof fn lemma_apply_push(s: Seq<EntryModel>, e: EntryModel, t: Seq<u8>)
    ensures
        apply_log(s.push(e), t) == if e.2 == t {
            apply_log(s, t).insert(e.4, slot_of(e))
        } else {
            apply_log(s, t)
        },
{
    assert(s.push(e).drop_last() =~= s);
}

/// The largest key seen by a tree of table `table` and key width `w`, after
/// the entries `es` were applied to it from `max`.
pub open spec fn bump_log(w: KeyWidth, max: Option<u64>, es: Seq<EntryModel>, table: Seq<u8>) -> Option<
    u64,
>
    decreases es.len(),
{
    if es.len() == 0 {
        max
    } else {
        let m = bump_log(w, max, es.drop_last(), table);
        if es.last().2 == table {
            bump(w, m, es.last().4)
        } else {
            m
        }
    }
}

/// The entries whose lengths fit the log's framing, in order.
pub open spec fn fitting(es: Seq<EntryModel>) -> Seq<EntryModel>
    decreases es.len(),
{
    if es.len() == 0 {
        Seq::empty()
    } else if entry_fits(es.last()) {
        fitting(es.drop_last()).push(es.last())
    } else {
        fitting(es.drop_last())
    }
}

/// A change event made from a write's entry and the slot that it replaced:
/// a `Put` of the new value, with the old value when a record stood there.
pub open spec fn change_matches(u: Update<Vec<u8>>, e: EntryModel, prior: Option<SlotModel>) -> bool {
    match u {
        Update::Put { old: o, new: n } => {
            &&& Some(n@) == e.5
            &&& match prior {
                Some(Some(rec)) => o matches Some(x) && x@ == rec.1,
                _ => o is None,
            }
        },
        Update::Del { .. } => false,
    }
}

/// The bytes of an optional byte vector.
pub open spec fn copy_opt(v: Option<Vec<u8>>) -> Option<Seq<u8>> {
    crate::entry::opt_bytes(v)
}

/// Copies an optional byte vector.
pub fn copy_opt_bytes(v: &Option<Vec<u8>>) -> (r: Option<Vec<u8>>)
    ensures
        copy_opt(r) == copy_opt(*v),
{
    match v {
        Some(d) => Some(copy_bytes(d)),
        None => None,
    }
}

proof fn fitting_len_le(es: Seq<EntryModel>)
    ensures
        fitting(es).len() <= es.len(),
    decreases es.len(),
{
    if es.len() > 0 {
        fitting_len_le(es.drop_last());
    }
}

/// Each frame takes at least eight bytes, so a log of `n` bytes yields at
/// most `n` entries and corrupt frames together.
proof fn lemma_frame_count(s: Seq<u8>)
    ensures
        crate::entry::replay_corrupt(s) + replay_valid(s).len() <= s.len(),
    decreases s.len(),
{
    match crate::entry::parse_frame(s) {
        None => {},
        Some((pe, n)) => if 8 <= n <= s.len() {
            lemma_frame_count(s.skip(n as int));
        },
    }
}

/// What a log prefix `es` leaves at key `k` of table `table`: the slot, or
/// `None` when the key is absent.
pub open spec fn slot_after(es: Seq<EntryModel>, table: Seq<u8>, k: Seq<u8>) -> Option<SlotModel> {
    slot_in(apply_log(es, table), k)
}

/// A write that reached the table and waits for the log.
struct Pending {
    tree: usize,
    key: Vec<u8>,
    /// The slot before the write; `None` when the key was absent.
    prior: Option<Option<MemRecord>>,
    /// The tree's largest key before the write.
    prior_max: Option<u64>,
    entry: Item,
}

pub open spec fn prior_model(p: Option<Option<MemRecord>>) -> Option<SlotModel> {
    match p {
        Some(s) => Some(slot_model(s)),
        None => None,
    }
}

pub open spec fn slot_in(m: Map<Seq<u8>, SlotModel>, k: Seq<u8>) -> Option<SlotModel> {
    if m.contains_key(k) {
        Some(m[k])
    } else {
        None
    }
}

/// One record that recovery read into a tree, for the tree's derived views:
/// the value it wrote and the value it replaced.
#[derive(Debug)]
pub struct RestoreItem {
    pub tree: usize,
    pub key: Vec<u8>,
    pub value: Option<Vec<u8>>,
    pub prior: Option<Vec<u8>>,
}

impl RestoreItem {
    pub fn new(tree: usize, key: Vec<u8>, value: Option<Vec<u8>>, prior: Option<Vec<u8>>) -> (r:
        RestoreItem)
        ensures
            r.tree == tree,
            r.key@ == key@,
            copy_opt(r.value) == copy_opt(value),
            copy_opt(r.prior) == copy_opt(prior),
    {
        RestoreItem { tree, key, value, prior }
    }
}

/// The bytes of the record at `k`, if a record (not a tombstone) is there.
pub open spec fn data_at(m: Map<Seq<u8>, SlotModel>, k: Seq<u8>) -> Option<Seq<u8>> {
    if m.contains_key(k) {
        match m[k] {
            Some(r) => Some(r.1),
            None => None,
        }
    } else {
        None
    }
}

/// What recovery did.
#[derive(Debug)]
pub struct RestoreReport {
    /// The records read into trees, in log order.
    pub restored: Vec<RestoreItem>,
    /// The frames dropped as corrupt.
    pub corrupt: usize,
}

pub struct Database {
    trees: Vec<Tree>,
    log: Vec<u8>,
    committed: Ghost<Seq<EntryModel>>,
    pending: Vec<Pending>,
    timer_armed: bool,
    ready: bool,
}

/// The largest value length, 1 GiB, that a write accepts.
///
/// This is a limit of this database, not of the log format. A log entry
/// carries its own length and those of its name, key and value in 64-bit
/// fields. Capping each part at 1 GiB keeps every entry's length within those
/// fields whatever the platform's address width, so a write never has to be
/// refused after it was staged.
pub const MAX_VALUE_LEN: usize = 0x4000_0000;

/// The longest table name or key, 1 GiB, that this database accepts; see
/// `MAX_VALUE_LEN`.
pub const MAX_NAME_LEN: usize = 0x4000_0000;

impl Database {
    /// The entries that reached the log, in log order.
    pub closed spec fn committed(&self) -> Seq<EntryModel> {
        self.committed@
    }

    /// The entries of the writes that wait for the log, in arrival order.
    pub closed spec fn pending_entries(&self) -> Seq<EntryModel> {
        self.pending@.map_values(|p: Pending| p.entry@)
    }

    pub closed spec fn log_view(&self) -> Seq<u8> {
        self.log@
    }

    pub closed spec fn tree_count(&self) -> nat {
        self.trees@.len()
    }

    pub closed spec fn tree_view(&self, i: int) -> Map<Seq<u8>, SlotModel> {
        self.trees@[i].view()
    }

    pub closed spec fn tree_table(&self, i: int) -> Seq<u8> {
        self.trees@[i].spec_table()
    }

    pub closed spec fn tree_width(&self, i: int) -> KeyWidth {
        self.trees@[i].spec_width()
    }

    pub closed spec fn tree_max(&self, i: int) -> Option<u64> {
        self.trees@[i].spec_max()
    }

    pub closed spec fn tree_version(&self, i: int) -> u16 {
        self.trees@[i].current()
    }

    /// The tree that pending write `j` went to.
    pub closed spec fn pending_tree(&self, j: int) -> int {
        self.pending@[j].tree as int
    }

    pub closed spec fn is_ready(&self) -> bool {
        self.ready
    }

    pub closed spec fn is_timer_armed(&self) -> bool {
        self.timer_armed
    }

    closed spec fn pending_ok(&self, j: int) -> bool {
        let p = self.pending@[j];
        let t = p.tree as int;
        let m = apply_log(self.committed@ + self.pending_entries().take(j), self.trees@[t].spec_table());
        &&& 0 <= t < self.trees@.len()
        &&& p.entry.table@ == self.trees@[t].spec_table()
        &&& p.entry.key@ == p.key@
        &&& entry_fits(p.entry@)
        &&& crc_ok(p.entry@)
        &&& p.entry.value is Some
        &&& prior_model(p.prior) == slot_in(m, p.key@)
        &&& p.prior_max matches Some(x) ==> x <= self.trees@[t].spec_width().max_key()
        &&& max_covers(m, self.trees@[t].spec_width(), p.prior_max)
    }

    closed spec fn core_ok(&self) -> bool {
        &&& forall|i: int| 0 <= i < self.trees@.len() ==> (#[trigger] self.trees@[i]).wf()
        &&& forall|i: int, j: int|
            0 <= i < self.trees@.len() && 0 <= j < self.trees@.len() && i != j
                ==> (#[trigger] self.trees@[i]).spec_table() != (#[trigger] self.trees@[j]).spec_table()
        &&& forall|i: int|
            0 <= i < self.trees@.len() ==> (#[trigger] self.trees@[i]).spec_table().len()
                <= MAX_NAME_LEN
        &&& self.log@ == log_bytes(self.committed@)
        &&& forall|k: int|
            0 <= k < self.committed@.len() ==> entry_fits(#[trigger] self.committed@[k]) && crc_ok(
                self.committed@[k],
            )
        &&& forall|i: int|
            0 <= i < self.trees@.len() ==> (#[trigger] self.trees@[i]).view() == apply_log(
                self.committed@ + self.pending_entries(),
                self.trees@[i].spec_table(),
            )
        &&& forall|j: int| 0 <= j < self.pending@.len() ==> #[trigger] self.pending_ok(j)
    }

    pub closed spec fn wf(&self) -> bool {
        &&& self.core_ok()
        &&& !self.ready ==> self.pending@.len() == 0 && self.committed@.len() == 0
        &&& self.timer_armed <==> self.pending@.len() > 0
    }

    /// An empty database: no trees, an empty log, recovery not yet run.
    pub fn new() -> (r: Database)
        ensures
            r.wf(),
            r.tree_count() == 0,
            r.committed() == Seq::<EntryModel>::empty(),
            r.pending_entries() == Seq::<EntryModel>::empty(),
            !r.is_ready(),
            !r.is_timer_armed(),
    {
        let r = Database {
            trees: Vec::new(),
            log: Vec::new(),
            committed: Ghost(Seq::empty()),
            pending: Vec::new(),
            timer_armed: false,
            ready: false,
        };
        assert(r.pending_entries() =~= Seq::<EntryModel>::empty());
        r
    }

    /// Some entry of `es` names a tree's table under a schema version that the
    /// tree does not have.
    pub open spec fn conflicts(&self, es: Seq<EntryModel>) -> bool {
        exists|k: int, i: int|
            0 <= k < es.len() && 0 <= i < self.tree_count() && #[trigger] entry_fits(es[k])
                && es[k].2 == #[trigger] self.tree_table(i) && es[k].3 > self.tree_version(i)
    }

    /// Whether some tree has table name `table`.
    pub open spec fn has_table(&self, table: Seq<u8>) -> bool {
        exists|i: int| 0 <= i < self.tree_count() && self.tree_table(i) == table
    }

    /// The entries of `es` that name a tree, each as (tree, key, value, the
    /// value it replaced), in order.
    pub open spec fn routed(&self, es: Seq<EntryModel>) -> Seq<
        (int, Seq<u8>, Option<Seq<u8>>, Option<Seq<u8>>),
    >
        decreases es.len(),
    {
        if es.len() == 0 {
            Seq::empty()
        } else {
            let r = self.routed(es.drop_last());
            let e = es.last();
            if self.has_table(e.2) {
                r.push(
                    (
                        choose|i: int| 0 <= i < self.tree_count() && self.tree_table(i) == e.2,
                        e.4,
                        e.5,
                        data_at(apply_log(es.drop_last(), e.2), e.4),
                    ),
                )
            } else {
                r
            }
        }
    }

    /// The number of trees.
    pub fn len(&self) -> (r: usize)
        ensures
            r == self.tree_count(),
    {
        self.trees.len()
    }

    /// The tree at index `i`.
    pub fn tree(&self, i: usize) -> (r: &Tree)
        requires
            i < self.tree_count(),
        ensures
            r.view() == self.tree_view(i as int),
            r.spec_table() == self.tree_table(i as int),
            r.spec_width() == self.tree_width(i as int),
            r.current() == self.tree_version(i as int),
            r.spec_max() == self.tree_max(i as int),
            self.wf() ==> r.wf(),
    {
        &self.trees[i]
    }

    /// Whether recovery has completed and writes are accepted.
    pub fn ready(&self) -> (r: bool)
        ensures
            r == self.is_ready(),
    {
        self.ready
    }

    /// Whether a group commit is scheduled: some write waits for the log.
    pub fn timer_armed(&self) -> (r: bool)
        ensures
            r == self.is_timer_armed(),
    {
        self.timer_armed
    }

    /// The number of writes waiting for the log.
    pub fn pending_len(&self) -> (r: usize)
        ensures
            r == self.pending_entries().len(),
    {
        self.pending.len()
    }

    /// Applies a slot to tree `t`, taking it out of the list and putting it
    /// back.
    fn apply_to_tree(&mut self, t: usize, key: Vec<u8>, version: u16, value: Option<Vec<u8>>)
        requires
            t < old(self).trees@.len(),
            old(self).trees@[t as int].wf(),
        ensures
            final(self).trees@.len() == old(self).trees@.len(),
            forall|i: int|
                0 <= i < old(self).trees@.len() && i != t ==> final(self).trees@[i] == old(self).trees@[i],
            final(self).trees@[t as int].wf(),
            final(self).trees@[t as int].view() == old(self).trees@[t as int].view().insert(
                key@,
                match value {
                    Some(d) => Some((version, d@)),
                    None => None,
                },
            ),
            final(self).trees@[t as int].spec_max() == bump(
                old(self).trees@[t as int].spec_width(),
                old(self).trees@[t as int].spec_max(),
                key@,
            ),
            final(self).trees@[t as int].spec_table() == old(self).trees@[t as int].spec_table(),
            final(self).trees@[t as int].spec_width() == old(self).trees@[t as int].spec_width(),
            final(self).trees@[t as int].current() == old(self).trees@[t as int].current(),
            final(self).trees@[t as int].spec_name() == old(self).trees@[t as int].spec_name(),
            final(self).log == old(self).log,
            final(self).committed == old(self).committed,
            final(self).pending == old(self).pending,
            final(self).timer_armed == old(self).timer_armed,
            final(self).ready == old(self).ready,
    {
        let mut tree = self.trees.remove(t);
        tree.apply(key, version, value);
        self.trees.insert(t, tree);
    }

    /// Puts back a slot of tree `t` and its largest key.
    fn restore_tree_slot(
        &mut self,
        t: usize,
        key: Vec<u8>,
        prior: Option<Option<MemRecord>>,
        max: Option<u64>,
    )
        requires
            t < old(self).trees@.len(),
            old(self).trees@[t as int].wf(),
            max matches Some(m) ==> m <= old(self).trees@[t as int].spec_width().max_key(),
            max_covers(
                match prior {
                    Some(s) => old(self).trees@[t as int].view().insert(key@, slot_model(s)),
                    None => old(self).trees@[t as int].view().remove(key@),
                },
                old(self).trees@[t as int].spec_width(),
                max,
            ),
        ensures
            final(self).trees@.len() == old(self).trees@.len(),
            forall|i: int|
                0 <= i < old(self).trees@.len() && i != t ==> final(self).trees@[i] == old(self).trees@[i],
            final(self).trees@[t as int].wf(),
            final(self).trees@[t as int].view() == match prior {
                Some(s) => old(self).trees@[t as int].view().insert(key@, slot_model(s)),
                None => old(self).trees@[t as int].view().remove(key@),
            },
            final(self).trees@[t as int].spec_max() == max,
            final(self).trees@[t as int].spec_table() == old(self).trees@[t as int].spec_table(),
            final(self).trees@[t as int].spec_width() == old(self).trees@[t as int].spec_width(),
            final(self).trees@[t as int].current() == old(self).trees@[t as int].current(),
            final(self).trees@[t as int].spec_name() == old(self).trees@[t as int].spec_name(),
            final(self).log == old(self).log,
            final(self).committed == old(self).committed,
            final(self).pending == old(self).pending,
            final(self).timer_armed == old(self).timer_armed,
            final(self).ready == old(self).ready,
    {
        let mut tree = self.trees.remove(t);
        tree.restore_slot(key, prior, max);
        self.trees.insert(t, tree);
    }

    /// Writes `value` at key bytes `key` of tree `t` under the current
    /// version and queues its log entry; returns whether this write arms the
    /// group-commit timer.
    fn stage(&mut self, t: usize, key: Vec<u8>, value: Vec<u8>, timestamp: u128) -> (r: bool)
        requires
            old(self).wf(),
            old(self).is_ready(),
            t < old(self).tree_count(),
            key@.len() <= MAX_NAME_LEN,
            value@.len() <= MAX_VALUE_LEN,
        ensures
            final(self).wf(),
            final(self).is_ready(),
            final(self).tree_count() == old(self).tree_count(),
            r == !old(self).is_timer_armed(),
            final(self).is_timer_armed(),
            final(self).committed() == old(self).committed(),
            final(self).log_view() == old(self).log_view(),
            final(self).pending_entries().len() == old(self).pending_entries().len() + 1,
            final(self).pending_entries().take(old(self).pending_entries().len() as int)
                == old(self).pending_entries(),
            final(self).pending_entries().last().2 == old(self).tree_table(t as int),
            final(self).pending_entries().last().3 == old(self).tree_version(t as int),
            final(self).pending_entries().last().4 == key@,
            final(self).pending_entries().last().5 == Some(value@),
            final(self).pending_entries().last().1 == timestamp,
            crc_ok(final(self).pending_entries().last()),
            final(self).tree_view(t as int) == old(self).tree_view(t as int).insert(
                key@,
                Some((old(self).tree_version(t as int), value@)),
            ),
            final(self).tree_max(t as int) == bump(
                old(self).tree_width(t as int),
                old(self).tree_max(t as int),
                key@,
            ),
            forall|i: int|
                0 <= i < old(self).tree_count() && i != t ==> final(self).tree_view(i) == old(self).tree_view(i) && final(self).tree_max(i) == old(self).tree_max(i),
            forall|i: int|
                0 <= i < old(self).tree_count() ==> final(self).tree_table(i) == old(self).tree_table(i) && final(self).tree_width(i) == old(self).tree_width(i)
                    && final(self).tree_version(i) == old(self).tree_version(i),
    {
        let ghost old_self = *self;
        let ghost tab = self.trees@[t as int].spec_table();
        let prior = self.trees[t].slot(key.as_slice());
        let prior_max = self.trees[t].max_key();
        let version = self.trees[t].version();
        let table = copy_bytes(self.trees[t].table());
        let entry = Item::new(table, timestamp, version, copy_bytes(&key), Some(copy_bytes(&value)));
        proof {
            lemma_small_entry_fits(entry@);
        }
        let ghost e = entry@;
        self.apply_to_tree(t, copy_bytes(&key), version, Some(value));
        let arm = !self.timer_armed;
        self.pending.push(Pending { tree: t, key, prior, prior_max, entry });
        self.timer_armed = true;
        proof {
            let old_pe = old_self.pending_entries();
            assert(self.pending_entries() =~= old_pe.push(e));
            assert(old_self.committed@ + self.pending_entries() =~= (old_self.committed@
                + old_pe).push(e));
            let n = old_pe.len() as int;
            assert(self.pending_entries().take(n) =~= old_pe);
            assert forall|i: int| 0 <= i < self.trees@.len() implies (#[trigger] self.trees@[
                i
            ]).view() == apply_log(
                self.committed@ + self.pending_entries(),
                self.trees@[i].spec_table(),
            ) by {
                lemma_apply_push(old_self.committed@ + old_pe, e, self.trees@[i].spec_table());
                if i != t {
                    assert(old_self.trees@[i].wf());
                }
            }
            assert forall|j: int| 0 <= j < self.pending@.len() implies #[trigger] self.pending_ok(
                j,
            ) by {
                if j < n {
                    assert(old_self.pending_ok(j));
                    assert(self.pending_entries().take(j) =~= old_pe.take(j));
                    assert(self.pending@[j] == old_self.pending@[j]);
                } else {
                    assert(self.pending_entries().take(j) =~= old_pe);
                    assert(old_self.trees@[t as int].wf());
                    assert(old_self.trees@[t as int].view() == apply_log(
                        old_self.committed@ + old_pe,
                        tab,
                    ));
                    assert(self.pending@[j].tree == t);
                    assert(self.trees@[t as int].spec_table() == tab);
                    old_self.trees@[t as int].lemma_wf();
                    let p = self.pending@[j];
                    let m = apply_log(self.committed@ + self.pending_entries().take(j), tab);
                    assert(p.entry.table@ == tab);
                    assert(p.entry.key@ == p.key@);
                    assert(entry_fits(p.entry@));
                    assert(crc_ok(p.entry@));
                    assert(prior_model(p.prior) == slot_in(m, p.key@));
                    assert(max_covers(m, self.trees@[t as int].spec_width(), p.prior_max));
                }
            }
        }
        arm
    }

    /// Inserts `value` into tree `t` under a freshly allocated key: one past
    /// the largest key the tree has seen, zero in an empty tree. The write is
    /// visible at once and reaches the log at the next group commit. Returns
    /// the key and whether this write arms the group-commit timer.
    pub fn insert(&mut self, t: usize, value: Vec<u8>, timestamp: u128) -> (r: Result<
        (u64, bool),
        DbError,
    >)
        requires
            old(self).wf(),
        ensures
            final(self).wf(),
            !old(self).is_ready() ==> r == Err::<(u64, bool), DbError>(DbError::NotRestored),
            old(self).is_ready() && t >= old(self).tree_count() ==> r == Err::<(u64, bool), DbError>(
                DbError::NoSuchTree,
            ),
            old(self).is_ready() && t < old(self).tree_count() && value@.len() > MAX_VALUE_LEN ==> r
                == Err::<(u64, bool), DbError>(DbError::TooLarge),
            old(self).is_ready() && t < old(self).tree_count() && value@.len() <= MAX_VALUE_LEN
                ==> (r is Err <==> next_key_after(
                old(self).tree_width(t as int),
                old(self).tree_max(t as int),
            ) is None),
            r is Err ==> r == Err::<(u64, bool), DbError>(DbError::KeysExhausted) || !old(self).is_ready() || t >= old(self).tree_count() || value@.len() > MAX_VALUE_LEN,
            r is Err ==> *final(self) == *old(self),
            r matches Ok((k, arm)) ==> {
                let w = old(self).tree_width(t as int);
                &&& Some(k) == next_key_after(w, old(self).tree_max(t as int))
                &&& forall|q: Seq<u8>| #[trigger]
                    old(self).tree_view(t as int).contains_key(q) && crate::codec::key_of(w, q)
                        is Some ==> crate::codec::key_of(w, q).unwrap() < k
                &&& final(self).tree_view(t as int) == old(self).tree_view(t as int).insert(
                    key_bytes(w, k),
                    Some((old(self).tree_version(t as int), value@)),
                )
                &&& final(self).tree_max(t as int) == Some(k)
                &&& arm == !old(self).is_timer_armed()
                &&& final(self).is_timer_armed()
                &&& final(self).committed() == old(self).committed()
                &&& final(self).pending_entries() == old(self).pending_entries().push(
                    final(self).pending_entries().last(),
                )
                &&& final(self).pending_entries().last().1 == timestamp
                &&& final(self).pending_entries().last().2 == old(self).tree_table(t as int)
                &&& final(self).pending_entries().last().3 == old(self).tree_version(t as int)
                &&& final(self).pending_entries().last().4 == key_bytes(w, k)
                &&& final(self).pending_entries().last().5 == Some(value@)
                &&& crc_ok(final(self).pending_entries().last())
                &&& forall|i: int|
                    0 <= i < old(self).tree_count() && i != t ==> final(self).tree_view(i) == old(self).tree_view(i)
            },
            final(self).tree_count() == old(self).tree_count(),
            final(self).is_ready() == old(self).is_ready(),
            forall|i: int|
                0 <= i < old(self).tree_count() ==> final(self).tree_table(i) == old(self).tree_table(i) && final(self).tree_width(i) == old(self).tree_width(i)
                    && final(self).tree_version(i) == old(self).tree_version(i),
    {
        if !self.ready {
            return Err(DbError::NotRestored);
        }
        if t >= self.trees.len() {
            return Err(DbError::NoSuchTree);
        }
        if value.len() > MAX_VALUE_LEN {
            return Err(DbError::TooLarge);
        }
        proof {
            self.trees@[t as int].lemma_wf();
        }
        let w = self.trees[t].width();
        match self.trees[t].next_key() {
            None => Err(DbError::KeysExhausted),
            Some(k) => {
                let kb = encode_key(w, k);
                proof {
                    crate::codec::lemma_key_round_trip(w, k);
                }
                let arm = self.stage(t, kb, value, timestamp);
                Ok((k, arm))
            },
        }
    }

    /// Overwrites key `key` of tree `t` with `value` under the current
    /// version. The write is visible at once and reaches the log at the next
    /// group commit. Returns whether this write arms the group-commit timer.
    pub fn update(&mut self, t: usize, key: u64, value: Vec<u8>, timestamp: u128) -> (r: Result<
        bool,
        DbError,
    >)
        requires
            old(self).wf(),
        ensures
            final(self).wf(),
            !old(self).is_ready() ==> r == Err::<bool, DbError>(DbError::NotRestored),
            old(self).is_ready() && t >= old(self).tree_count() ==> r == Err::<bool, DbError>(
                DbError::NoSuchTree,
            ),
            old(self).is_ready() && t < old(self).tree_count() && key > old(self).tree_width(
                t as int,
            ).max_key() ==> r == Err::<bool, DbError>(DbError::InvalidKey),
            old(self).is_ready() && t < old(self).tree_count() && key <= old(self).tree_width(
                t as int,
            ).max_key() && value@.len() > MAX_VALUE_LEN ==> r == Err::<bool, DbError>(
                DbError::TooLarge,
            ),
            old(self).is_ready() && t < old(self).tree_count() && key <= old(self).tree_width(
                t as int,
            ).max_key() && value@.len() <= MAX_VALUE_LEN ==> r is Ok,
            r is Err ==> *final(self) == *old(self),
            r matches Ok(arm) ==> {
                let w = old(self).tree_width(t as int);
                &&& final(self).tree_view(t as int) == old(self).tree_view(t as int).insert(
                    key_bytes(w, key),
                    Some((old(self).tree_version(t as int), value@)),
                )
                &&& final(self).tree_max(t as int) == bump(
                    w,
                    old(self).tree_max(t as int),
                    key_bytes(w, key),
                )
                &&& arm == !old(self).is_timer_armed()
                &&& final(self).is_timer_armed()
                &&& final(self).committed() == old(self).committed()
                &&& final(self).pending_entries() == old(self).pending_entries().push(
                    final(self).pending_entries().last(),
                )
                &&& final(self).pending_entries().last().1 == timestamp
                &&& final(self).pending_entries().last().2 == old(self).tree_table(t as int)
                &&& final(self).pending_entries().last().3 == old(self).tree_version(t as int)
                &&& final(self).pending_entries().last().4 == key_bytes(w, key)
                &&& final(self).pending_entries().last().5 == Some(value@)
                &&& crc_ok(final(self).pending_entries().last())
                &&& forall|i: int|
                    0 <= i < old(self).tree_count() && i != t ==> final(self).tree_view(i) == old(self).tree_view(i)
            },
            final(self).tree_count() == old(self).tree_count(),
            final(self).is_ready() == old(self).is_ready(),
            forall|i: int|
                0 <= i < old(self).tree_count() ==> final(self).tree_table(i) == old(self).tree_table(i) && final(self).tree_width(i) == old(self).tree_width(i)
                    && final(self).tree_version(i) == old(self).tree_version(i),
    {
        if !self.ready {
            return Err(DbError::NotRestored);
        }
        if t >= self.trees.len() {
            return Err(DbError::NoSuchTree);
        }
        let w = self.trees[t].width();
        if key > w.max_value() {
            return Err(DbError::InvalidKey);
        }
        if value.len() > MAX_VALUE_LEN {
            return Err(DbError::TooLarge);
        }
        let kb = encode_key(w, key);
        let arm = self.stage(t, kb, value, timestamp);
        Ok(arm)
    }

    /// Writes back a record of tree `t` upgraded to the current version, at
    /// the key the upgrade gave it. Like any write it is visible at once and
    /// reaches the log at the next group commit; returns whether it arms the
    /// group-commit timer.
    pub fn store_upgraded(&mut self, t: usize, upgraded: UpgradedVersion, timestamp: u128) -> (r:
        Result<bool, DbError>)
        requires
            old(self).wf(),
        ensures
            final(self).wf(),
            !old(self).is_ready() ==> r == Err::<bool, DbError>(DbError::NotRestored),
            old(self).is_ready() && t >= old(self).tree_count() ==> r == Err::<bool, DbError>(
                DbError::NoSuchTree,
            ),
            old(self).is_ready() && t < old(self).tree_count() && (upgraded.key@.len()
                > MAX_NAME_LEN || upgraded.value@.len() > MAX_VALUE_LEN) ==> r == Err::<
                bool,
                DbError,
            >(DbError::TooLarge),
            old(self).is_ready() && t < old(self).tree_count() && upgraded.key@.len()
                <= MAX_NAME_LEN && upgraded.value@.len() <= MAX_VALUE_LEN ==> r is Ok,
            r is Err ==> *final(self) == *old(self),
            r matches Ok(arm) ==> {
                &&& final(self).tree_view(t as int) == old(self).tree_view(t as int).insert(
                    upgraded.key@,
                    Some((old(self).tree_version(t as int), upgraded.value@)),
                )
                &&& final(self).pending_entries() == old(self).pending_entries().push(
                    final(self).pending_entries().last(),
                )
                &&& final(self).pending_entries().last().1 == timestamp
                &&& final(self).pending_entries().last().2 == old(self).tree_table(t as int)
                &&& final(self).pending_entries().last().3 == old(self).tree_version(t as int)
                &&& final(self).pending_entries().last().4 == upgraded.key@
                &&& final(self).pending_entries().last().5 == Some(upgraded.value@)
                &&& arm == !old(self).is_timer_armed()
                &&& final(self).committed() == old(self).committed()
                &&& forall|i: int|
                    0 <= i < old(self).tree_count() && i != t ==> final(self).tree_view(i) == old(self).tree_view(i)
            },
            final(self).tree_count() == old(self).tree_count(),
            final(self).is_ready() == old(self).is_ready(),
    {
        if !self.ready {
            return Err(DbError::NotRestored);
        }
        if t >= self.trees.len() {
            return Err(DbError::NoSuchTree);
        }
        if upgraded.key.len() > MAX_NAME_LEN || upgraded.value.len() > MAX_VALUE_LEN {
            return Err(DbError::TooLarge);
        }
        let UpgradedVersion { key, value } = upgraded;
        let arm = self.stage(t, key, value, timestamp);
        Ok(arm)
    }

    /// The bytes that the next group commit writes: the frames of the
    /// waiting writes, in arrival order.
    pub fn pending_bytes(&self) -> (r: Vec<u8>)
        requires
            self.wf(),
        ensures
            log_bytes(self.committed()) + r@ == log_bytes(
                self.committed() + self.pending_entries(),
            ),
    {
        let mut out: Vec<u8> = Vec::new();
        let mut i: usize = 0;
        let ghost c0 = self.committed@;
        let ghost pe = self.pending_entries();
        assert(c0 + pe.take(0) =~= c0);
        while i < self.pending.len()
            invariant
                self.wf(),
                c0 == self.committed@,
                pe == self.pending_entries(),
                i <= self.pending@.len(),
                log_bytes(c0) + out@ == log_bytes(c0 + pe.take(i as int)),
            decreases self.pending.len() - i,
        {
            assert(self.pending_ok(i as int));
            let b = self.pending[i].entry.encode();
            crate::entry::append_all(&mut out, b.as_slice());
            proof {
                assert(c0 + pe.take(i + 1) =~= (c0 + pe.take(i as int)).push(pe[i as int]));
                assert((c0 + pe.take(i + 1)).drop_last() =~= c0 + pe.take(i as int));
                assert(pe[i as int] == self.pending@[i as int].entry@);
            }
            i = i + 1;
        }
        assert(pe.take(i as int) =~= pe);
        out
    }

    /// Ends a group commit. When the pending bytes reached the log
    /// (`written`), every waiting write is committed and its change is handed
    /// out for the subscribers, in arrival order. When they did not, every
    /// waiting write is undone, latest first, and nothing is handed out.
    pub fn complete_flush(&mut self, written: bool) -> (r: Result<Vec<ChangeItem>, DbError>)
        requires
            old(self).wf(),
        ensures
            final(self).wf(),
            !final(self).is_timer_armed(),
            final(self).pending_entries().len() == 0,
            final(self).tree_count() == old(self).tree_count(),
            final(self).is_ready() == old(self).is_ready(),
            forall|i: int|
                0 <= i < old(self).tree_count() ==> final(self).tree_table(i) == old(self).tree_table(i) && final(self).tree_width(i) == old(self).tree_width(i)
                    && final(self).tree_version(i) == old(self).tree_version(i),
            written ==> r is Ok,
            !written ==> r == Err::<Vec<ChangeItem>, DbError>(DbError::Durability),
            written ==> final(self).committed() == old(self).committed() + old(self).pending_entries(),
            written ==> forall|i: int|
                0 <= i < old(self).tree_count() ==> final(self).tree_view(i) == old(self).tree_view(i),
            !written ==> final(self).committed() == old(self).committed(),
            !written ==> forall|i: int|
                0 <= i < old(self).tree_count() ==> final(self).tree_view(i) == apply_log(
                    old(self).committed(),
                    old(self).tree_table(i),
                ),
            r matches Ok(changes) ==> {
                &&& changes@.len() == old(self).pending_entries().len()
                &&& forall|j: int|
                    0 <= j < changes@.len() ==> {
                        let c = #[trigger] changes@[j];
                        let e = old(self).pending_entries()[j];
                        &&& c.tree == old(self).pending_tree(j)
                        &&& e.2 == old(self).tree_table(c.tree as int)
                        &&& c.change.key@ == e.4
                        &&& change_matches(
                            c.change.update,
                            e,
                            slot_after(
                                old(self).committed() + old(self).pending_entries().take(j),
                                e.2,
                                e.4,
                            ),
                        )
                    }
            },
    {
        if written {
            self.commit_pending()
        } else {
            self.rollback_pending();
            Err(DbError::Durability)
        }
    }

    fn commit_pending(&mut self) -> (r: Result<Vec<ChangeItem>, DbError>)
        requires
            old(self).wf(),
        ensures
            final(self).wf(),
            !final(self).is_timer_armed(),
            final(self).pending_entries().len() == 0,
            final(self).trees == old(self).trees,
            final(self).ready == old(self).ready,
            final(self).committed() == old(self).committed() + old(self).pending_entries(),
            r matches Ok(changes) && changes@.len() == old(self).pending_entries().len() && forall|
                j: int,
            |
                0 <= j < changes@.len() ==> {
                    let c = #[trigger] changes@[j];
                    let e = old(self).pending_entries()[j];
                    &&& c.tree == old(self).pending_tree(j)
                    &&& e.2 == old(self).tree_table(c.tree as int)
                    &&& c.change.key@ == e.4
                    &&& change_matches(
                        c.change.update,
                        e,
                        slot_after(
                            old(self).committed() + old(self).pending_entries().take(j),
                            e.2,
                            e.4,
                        ),
                    )
                },
    {
        let ghost c0 = self.committed@;
        let ghost pe = self.pending_entries();
        let mut changes: Vec<ChangeItem> = Vec::new();
        let mut i: usize = 0;
        assert(c0 + pe.take(0) =~= c0);
        while i < self.pending.len()
            invariant
                old(self).wf(),
                c0 == self.committed@,
                pe == self.pending_entries(),
                self.trees == old(self).trees,
                self.pending == old(self).pending,
                self.committed == old(self).committed,
                self.ready == old(self).ready,
                self.timer_armed == old(self).timer_armed,
                i <= self.pending@.len(),
                self.log@ == log_bytes(c0 + pe.take(i as int)),
                changes@.len() == i,
                forall|j: int|
                    0 <= j < i ==> {
                        let c = #[trigger] changes@[j];
                        let e = pe[j];
                        &&& c.tree == self.pending@[j].tree
                        &&& e.2 == self.trees@[c.tree as int].spec_table()
                        &&& c.change.key@ == e.4
                        &&& change_matches(
                            c.change.update,
                            e,
                            slot_after(c0 + pe.take(j), e.2, e.4),
                        )
                    },
            decreases self.pending.len() - i,
        {
            assert(old(self).pending_ok(i as int));
            assert(pe[i as int] == self.pending@[i as int].entry@);
            let b = self.pending[i].entry.encode();
            crate::entry::append_all(&mut self.log, b.as_slice());
            let p = &self.pending[i];
            let old_value: Option<Vec<u8>> = match &p.prior {
                Some(Some(rec)) => Some(copy_bytes(&rec.data)),
                _ => None,
            };
            let new_value: Vec<u8> = match &p.entry.value {
                Some(v) => copy_bytes(v),
                None => Vec::new(),
            };
            changes.push(
                ChangeItem {
                    tree: p.tree,
                    change: Change {
                        key: copy_bytes(&p.key),
                        update: Update::Put { old: old_value, new: new_value },
                    },
                },
            );
            proof {
                assert(c0 + pe.take(i + 1) =~= (c0 + pe.take(i as int)).push(pe[i as int]));
                assert((c0 + pe.take(i + 1)).drop_last() =~= c0 + pe.take(i as int));
            }
            i = i + 1;
        }
        proof {
            assert(pe.take(i as int) =~= pe);
        }
        self.committed = Ghost(c0 + pe);
        self.pending = Vec::new();
        self.timer_armed = false;
        proof {
            assert(self.pending_entries() =~= Seq::<EntryModel>::empty());
            assert(self.committed@ + self.pending_entries() =~= c0 + pe);
            assert forall|k: int| 0 <= k < self.committed@.len() implies entry_fits(
                #[trigger] self.committed@[k],
            ) && crc_ok(self.committed@[k]) by {
                if k >= c0.len() {
                    assert(old(self).pending_ok(k - c0.len()));
                }
            }
        }
        Ok(changes)
    }

    fn rollback_pending(&mut self)
        requires
            old(self).wf(),
        ensures
            final(self).wf(),
            !final(self).is_timer_armed(),
            final(self).pending_entries().len() == 0,
            final(self).tree_count() == old(self).tree_count(),
            final(self).ready == old(self).ready,
            final(self).committed() == old(self).committed(),
            forall|i: int|
                0 <= i < old(self).tree_count() ==> final(self).tree_table(i) == old(self).tree_table(i) && final(self).tree_width(i) == old(self).tree_width(i)
                    && final(self).tree_version(i) == old(self).tree_version(i),
            forall|i: int|
                0 <= i < old(self).tree_count() ==> final(self).tree_view(i) == apply_log(
                    old(self).committed(),
                    old(self).tree_table(i),
                ),
    {
        let ghost c0 = self.committed@;
        let ghost pe = old(self).pending_entries();
        while self.pending.len() > 0
            invariant
                self.wf() || self.pending@.len() == 0,
                forall|i: int|
                    0 <= i < self.trees@.len() ==> (#[trigger] self.trees@[i]).wf(),
                forall|i: int|
                    0 <= i < self.trees@.len() ==> (#[trigger] self.trees@[i]).view() == apply_log(
                        c0 + self.pending_entries(),
                        self.trees@[i].spec_table(),
                    ),
                c0 == self.committed@,
                self.committed == old(self).committed,
                self.log == old(self).log,
                self.ready == old(self).ready,
                self.trees@.len() == old(self).trees@.len(),
                forall|i: int|
                    0 <= i < self.trees@.len() ==> (#[trigger] self.trees@[i]).spec_table() == old(self).trees@[i].spec_table() && self.trees@[i].spec_width() == old(self).trees@[i].spec_width() && self.trees@[i].current() == old(self).trees@[i].current(),
                self.pending_entries() == pe.take(self.pending@.len() as int),
                self.pending@.len() <= pe.len(),
                forall|j: int| 0 <= j < self.pending@.len() ==> #[trigger] self.pending_ok(j),
            decreases self.pending.len(),
        {
            let ghost before = *self;
            let n = self.pending.len() - 1;
            assert(self.pending_ok(n as int));
            let p = self.pending.pop().unwrap();
            let ghost t = p.tree as int;
            let ghost tab = before.trees@[t].spec_table();
            let ghost m = apply_log(c0 + before.pending_entries().take(n as int), tab);
            proof {
                assert(before.pending_entries() =~= before.pending_entries().take(n as int).push(
                    p.entry@,
                ));
                lemma_apply_push(c0 + before.pending_entries().take(n as int), p.entry@, tab);
                assert(c0 + before.pending_entries() =~= (c0 + before.pending_entries().take(
                    n as int,
                )).push(p.entry@));
                assert(self.pending_entries() =~= before.pending_entries().take(n as int));
                let restored = if p.prior is Some {
                    before.trees@[t].view().insert(p.key@, slot_model(p.prior.unwrap()))
                } else {
                    before.trees@[t].view().remove(p.key@)
                };
                assert(restored =~= m);
            }
            self.restore_tree_slot(p.tree, p.key, p.prior, p.prior_max);
            proof {
                assert forall|i: int| 0 <= i < self.trees@.len() implies (#[trigger] self.trees@[
                    i
                ]).view() == apply_log(c0 + self.pending_entries(), self.trees@[i].spec_table()) by {
                    lemma_apply_push(
                        c0 + before.pending_entries().take(n as int),
                        p.entry@,
                        self.trees@[i].spec_table(),
                    );
                }
                assert forall|j: int| 0 <= j < self.pending@.len() implies #[trigger] self.pending_ok(
                    j,
                ) by {
                    assert(before.pending_ok(j));
                    assert(self.pending_entries().take(j) =~= before.pending_entries().take(j));
                }
                assert(self.pending_entries() =~= pe.take(self.pending@.len() as int));
            }
        }
        self.timer_armed = false;
        proof {
            assert(self.pending_entries() =~= Seq::<EntryModel>::empty());
            assert(c0 + self.pending_entries() =~= c0);
        }
    }

    /// The index of the tree whose table name is `table`, if any.
    pub fn find_tree(&self, table: &[u8]) -> (r: Option<usize>)
        ensures
            r matches Some(t) ==> t < self.tree_count() && self.tree_table(t as int) == table@,
            r is None ==> forall|i: int|
                0 <= i < self.tree_count() ==> self.tree_table(i) != table@,
    {
        let mut i: usize = 0;
        while i < self.trees.len()
            invariant
                i <= self.trees@.len(),
                forall|j: int| 0 <= j < i ==> self.trees@[j].spec_table() != table@,
            decreases self.trees.len() - i,
        {
            if bytes_eq(self.trees[i].table().as_slice(), table) {
                return Some(i);
            }
            i = i + 1;
        }
        None
    }

    /// Registers a tree named `name` with key width `width` and the given
    /// schema history, oldest first; returns its index. Trees are registered
    /// before recovery.
    pub fn create_tree(&mut self, name: &str, width: KeyWidth, versions: Vec<VersionedTree>) -> (r:
        Result<usize, DbError>)
        requires
            old(self).wf(),
        ensures
            final(self).wf(),
            r == if old(self).is_ready() {
                Err::<usize, DbError>(DbError::AlreadyRestored)
            } else if versions@.len() == 0 || versions@.len() > u16::MAX {
                Err(DbError::BadSchema)
            } else if name.spec_bytes().len() > MAX_NAME_LEN {
                Err(DbError::TooLarge)
            } else if exists|i: int|
                0 <= i < old(self).tree_count() && old(self).tree_table(i) == name.spec_bytes() {
                Err(DbError::DuplicateTree)
            } else {
                Ok(old(self).tree_count() as usize)
            },
            r is Err ==> *final(self) == *old(self),
            r matches Ok(t) ==> {
                &&& t == old(self).tree_count()
                &&& final(self).tree_count() == old(self).tree_count() + 1
                &&& final(self).tree_table(t as int) == name.spec_bytes()
                &&& final(self).tree_width(t as int) == width
                &&& final(self).tree_version(t as int) == versions@.len() - 1
                &&& final(self).tree_view(t as int) == Map::<Seq<u8>, SlotModel>::empty()
                &&& final(self).tree_max(t as int) is None
                &&& forall|i: int|
                    0 <= i < old(self).tree_count() ==> final(self).tree_view(i) == old(self).tree_view(i) && final(self).tree_table(i) == old(self).tree_table(i)
                        && final(self).tree_width(i) == old(self).tree_width(i)
                        && final(self).tree_version(i) == old(self).tree_version(i)
                        && final(self).tree_max(i) == old(self).tree_max(i)
            },
            final(self).is_ready() == old(self).is_ready(),
    {
        if self.ready {
            return Err(DbError::AlreadyRestored);
        }
        if versions.len() == 0 || versions.len() > 65535 {
            return Err(DbError::BadSchema);
        }
        if name.as_bytes().len() > MAX_NAME_LEN {
            return Err(DbError::TooLarge);
        }
        let found = self.find_tree(name.as_bytes());
        if found.is_some() {
            return Err(DbError::DuplicateTree);
        }
        let tree = Tree::new(name, width, versions);
        let t = self.trees.len();
        let ghost old_self = *self;
        self.trees.push(tree);
        proof {
            assert(self.pending_entries() =~= Seq::<EntryModel>::empty());
            assert(self.committed@ + self.pending_entries() =~= Seq::<EntryModel>::empty());
            assert(self.trees@[t as int].view() =~= apply_log(
                Seq::<EntryModel>::empty(),
                name.spec_bytes(),
            ));
            assert forall|i: int| 0 <= i < self.trees@.len() implies (#[trigger] self.trees@[
                i
            ]).view() == apply_log(
                self.committed@ + self.pending_entries(),
                self.trees@[i].spec_table(),
            ) by {
                if i < t {
                    assert(old_self.committed@ + old_self.pending_entries()
                        =~= Seq::<EntryModel>::empty());
                }
            }
            assert forall|i: int, j: int|
                0 <= i < self.trees@.len() && 0 <= j < self.trees@.len() && i != j
                    implies (#[trigger] self.trees@[i]).spec_table() != (
                #[trigger] self.trees@[j]).spec_table() by {
                if i < t && j < t {
                    assert(old_self.trees@[i] == self.trees@[i]);
                    assert(old_self.trees@[j] == self.trees@[j]);
                } else if i == t {
                    assert(old_self.trees@[j] == self.trees@[j]);
                    assert(old_self.tree_table(j) != name.spec_bytes());
                } else {
                    assert(old_self.trees@[i] == self.trees@[i]);
                    assert(old_self.tree_table(i) != name.spec_bytes());
                }
            }
            assert forall|i: int| 0 <= i < self.trees@.len() implies (#[trigger] self.trees@[
                i
            ]).wf() && self.trees@[i].spec_table().len() <= MAX_NAME_LEN by {
                if i < t {
                    assert(old_self.trees@[i] == self.trees@[i]);
                }
            }
            assert forall|j: int| 0 <= j < self.pending@.len() implies #[trigger] self.pending_ok(
                j,
            ) by {}
        }
        Ok(t)
    }

    /// Recovers from a log: reads every frame, drops the corrupt ones, and
    /// replays the rest in log order into the trees whose table they name,
    /// keeping each in this database's log. Entries of unknown tables are kept
    /// in the log and change no tree. Afterwards writes are accepted. Fails,
    /// with nothing changed, when an entry carries a schema version that its
    /// tree does not have.
    pub fn restore(&mut self, log: &[u8]) -> (r: Result<RestoreReport, DbError>)
        requires
            old(self).wf(),
        ensures
            final(self).wf(),
            old(self).is_ready() <==> r == Err::<RestoreReport, DbError>(DbError::AlreadyRestored),
            !old(self).is_ready() && r == Err::<RestoreReport, DbError>(DbError::SchemaMismatch)
                ==> old(self).conflicts(replay_valid(log@)),
            !old(self).is_ready() && old(self).conflicts(replay_valid(log@)) ==> r == Err::<
                RestoreReport,
                DbError,
            >(DbError::SchemaMismatch),
            r is Err ==> *final(self) == *old(self),
            r is Err ==> r == Err::<RestoreReport, DbError>(DbError::AlreadyRestored) || r == Err::<
                RestoreReport,
                DbError,
            >(DbError::SchemaMismatch),
            r matches Ok(rep) ==> {
                let es = fitting(replay_valid(log@));
                &&& final(self).is_ready()
                &&& !final(self).is_timer_armed()
                &&& final(self).committed() == es
                &&& final(self).pending_entries().len() == 0
                &&& forall|i: int|
                    0 <= i < old(self).tree_count() ==> final(self).tree_max(i) == bump_log(
                        old(self).tree_width(i),
                        old(self).tree_max(i),
                        es,
                        old(self).tree_table(i),
                    )
                &&& final(self).tree_count() == old(self).tree_count()
                &&& forall|i: int|
                    0 <= i < old(self).tree_count() ==> final(self).tree_view(i) == apply_log(
                        es,
                        old(self).tree_table(i),
                    ) && final(self).tree_table(i) == old(self).tree_table(i) && final(self).tree_width(i) == old(self).tree_width(i) && final(self).tree_version(i)
                        == old(self).tree_version(i)
                &&& rep.corrupt == replay_corrupt(log@) + (replay_valid(log@).len() - es.len())
                &&& rep.restored@.len() == old(self).routed(es).len()
                &&& forall|j: int|
                    0 <= j < rep.restored@.len() ==> {
                        let x = #[trigger] rep.restored@[j];
                        let y = old(self).routed(es)[j];
                        x.tree == y.0 && x.key@ == y.1 && copy_opt(x.value) == y.2 && copy_opt(
                            x.prior,
                        ) == y.3
                    }
            },
    {
        if self.ready {
            return Err(DbError::AlreadyRestored);
        }
        let rep = replay(log);
        let ghost rv = replay_valid(log@);
        proof {
            crate::entry::lemma_replay_valid_ok(log@);
            assert(rep.items@.len() == rv.len());
        }
        let ghost start = *self;
        let mut i: usize = 0;
        while i < rep.items.len()
            invariant
                self.wf(),
                *self == start,
                start == *old(self),
                rv == replay_valid(log@),
                !start.ready,
                i <= rep.items@.len(),
                rep.items@.map_values(|e: Item| e@) == rv,
                forall|k: int, t: int|
                    0 <= k < i && 0 <= t < self.tree_count() ==> !(entry_fits(rv[k]) && rv[k].2
                        == self.tree_table(t) && rv[k].3 > self.tree_version(t)),
            decreases rep.items.len() - i,
        {
            let e = &rep.items[i];
            assert(e@ == rv[i as int]);
            let f = e.fits();
            if f {
                match self.find_tree(e.table.as_slice()) {
                    Some(t) => {
                        if e.version > self.trees[t].version() {
                            proof {
                                assert(entry_fits(rv[i as int]) && rv[i as int].2 == self.tree_table(
                                    t as int,
                                ));
                                assert(self.conflicts(rv));
                            }
                            return Err(DbError::SchemaMismatch);
                        }
                        proof {
                            assert forall|u: int| 0 <= u < self.tree_count() && rv[i as int].2
                                == self.tree_table(u) implies rv[i as int].3 <= self.tree_version(
                                u,
                            ) by {
                                if u != t {
                                    assert(self.trees@[u].spec_table() != self.trees@[t as int].spec_table());
                                }
                            }
                        }
                    },
                    None => {},
                }
            }
            i = i + 1;
        }
        proof {
            lemma_frame_count(log@);
            if start.conflicts(rv) {
                let (k, t) = choose|k: int, t: int|
                    0 <= k < rv.len() && 0 <= t < start.tree_count() && #[trigger] entry_fits(rv[k])
                        && rv[k].2 == #[trigger] start.tree_table(t) && rv[k].3 > start.tree_version(t);
                assert(false);
            }
            assert(self.committed@ =~= Seq::<EntryModel>::empty());
            assert(!old(self).conflicts(replay_valid(log@)));
        }
        let mut restored: Vec<RestoreItem> = Vec::new();
        let mut corrupt: usize = rep.corrupt;
        let mut i: usize = 0;
        let log_len = log.len();
        assert(rv.take(0) =~= Seq::<EntryModel>::empty());
        while i < rep.items.len()
            invariant
                self.core_ok(),
                self.pending@.len() == 0,
                !self.timer_armed,
                !self.ready,
                self.trees@.len() == start.trees@.len(),
                forall|k: int|
                    0 <= k < self.trees@.len() ==> (#[trigger] self.trees@[k]).spec_table()
                        == start.trees@[k].spec_table() && self.trees@[k].spec_width()
                        == start.trees@[k].spec_width() && self.trees@[k].current()
                        == start.trees@[k].current(),
                forall|k: int, t: int|
                    0 <= k < rv.len() && 0 <= t < start.tree_count() ==> !(entry_fits(rv[k])
                        && rv[k].2 == start.tree_table(t) && rv[k].3 > start.tree_version(t)),
                start.core_ok(),
                start == *old(self),
                i <= rep.items@.len(),
                rep.items@.map_values(|e: Item| e@) == rv,
                rv == replay_valid(log@),
                rep.corrupt == replay_corrupt(log@),
                replay_corrupt(log@) + rv.len() <= log@.len(),
                log_len == log@.len(),
                self.committed@ == fitting(rv.take(i as int)),
                forall|k: int|
                    0 <= k < self.trees@.len() ==> (#[trigger] self.trees@[k]).spec_max() == bump_log(
                        start.trees@[k].spec_width(),
                        start.trees@[k].spec_max(),
                        self.committed@,
                        start.trees@[k].spec_table(),
                    ),
                corrupt == rep.corrupt + (i - self.committed@.len()),
                self.committed@.len() <= i,
                forall|k: int| 0 <= k < rv.len() ==> crc_ok(#[trigger] rv[k]),
                restored@.len() == start.routed(self.committed@).len(),
                forall|j: int|
                    0 <= j < restored@.len() ==> {
                        let x = #[trigger] restored@[j];
                        let y = start.routed(self.committed@)[j];
                        x.tree == y.0 && x.key@ == y.1 && copy_opt(x.value) == y.2 && copy_opt(
                            x.prior,
                        ) == y.3
                    },
            decreases rep.items.len() - i,
        {
            let e = &rep.items[i];
            let ghost before = *self;
            let ghost c = self.committed@;
            proof {
                assert(e@ == rv[i as int]);
                assert(rv.take(i + 1).drop_last() =~= rv.take(i as int));
                assert(rv.take(i + 1).last() == rv[i as int]);
                fitting_len_le(rv.take(i as int));
            }
            if e.fits() {
                let b = e.encode();
                crate::entry::append_all(&mut self.log, b.as_slice());
                self.committed = Ghost(c.push(e@));
                proof {
                    assert(c.push(e@).drop_last() =~= c);
                }
                match self.find_tree(e.table.as_slice()) {
                    Some(t) => {
                        let prior: Option<Vec<u8>> = match self.trees[t].slot(e.key.as_slice()) {
                            Some(Some(rec)) => Some(rec.data),
                            _ => None,
                        };
                        proof {
                            assert(self.trees@[t as int].view() == apply_log(
                                c,
                                self.trees@[t as int].spec_table(),
                            )) by {
                                assert(before.committed@ + before.pending_entries() =~= c);
                                assert(before.trees@[t as int].view() == apply_log(
                                    before.committed@ + before.pending_entries(),
                                    before.trees@[t as int].spec_table(),
                                ));
                            }
                            assert(copy_opt(prior) == data_at(apply_log(c, e@.2), e@.4));
                        }
                        let key = copy_bytes(&e.key);
                        let value = copy_opt_bytes(&e.value);
                        proof {
                            assert((match value {
                                Some(d) => Some((e.version, d@)),
                                None => None::<(u16, Seq<u8>)>,
                            }) == slot_of(e@));
                        }
                        self.apply_to_tree(t, key, e.version, value);
                        restored.push(
                            RestoreItem {
                                tree: t,
                                key: copy_bytes(&e.key),
                                value: copy_opt_bytes(&e.value),
                                prior,
                            },
                        );
                        proof {
                            assert(start.has_table(e@.2)) by {
                                assert(start.tree_table(t as int) == e@.2);
                            }
                            let ci = choose|u: int|
                                0 <= u < start.tree_count() && start.tree_table(u) == e@.2;
                            if ci != t {
                                assert(start.trees@[ci].spec_table() != start.trees@[t as int].spec_table());
                            }
                            assert(start.routed(c.push(e@)) == start.routed(c).push(
                                (t as int, e@.4, e@.5, data_at(apply_log(c, e@.2), e@.4)),
                            ));
                            assert forall|k: int| 0 <= k < self.trees@.len() implies (
                            #[trigger] self.trees@[k]).view() == apply_log(
                                c.push(e@),
                                self.trees@[k].spec_table(),
                            ) by {
                                lemma_apply_push(c, e@, self.trees@[k].spec_table());
                                assert(before.committed@ + before.pending_entries() =~= c);
                                assert(before.trees@[k].view() == apply_log(
                                    before.committed@ + before.pending_entries(),
                                    before.trees@[k].spec_table(),
                                ));
                                if k != t {
                                    assert(self.trees@[k] == before.trees@[k]);
                                    assert(before.trees@[k].spec_table() != before.trees@[t as int].spec_table());
                                }
                            }
                            assert forall|k: int| 0 <= k < self.trees@.len() implies (
                            #[trigger] self.trees@[k]).spec_max() == bump_log(
                                start.trees@[k].spec_width(),
                                start.trees@[k].spec_max(),
                                c.push(e@),
                                start.trees@[k].spec_table(),
                            ) by {
                                if k != t {
                                    assert(self.trees@[k] == before.trees@[k]);
                                    assert(before.trees@[k].spec_table() != before.trees@[t as int].spec_table());
                                }
                            }
                        }
                    },
                    None => {
                        proof {
                            if start.has_table(e@.2) {
                                let u = choose|u: int|
                                    0 <= u < start.tree_count() && start.tree_table(u) == e@.2;
                                assert(self.trees@[u].spec_table() == start.trees@[u].spec_table());
                                assert(self.tree_table(u) != e.table@);
                                assert(false);
                            }
                            assert forall|k: int| 0 <= k < self.trees@.len() implies (
                            #[trigger] self.trees@[k]).view() == apply_log(
                                c.push(e@),
                                self.trees@[k].spec_table(),
                            ) by {
                                lemma_apply_push(c, e@, self.trees@[k].spec_table());
                                assert(before.committed@ + before.pending_entries() =~= c);
                                assert(before.trees@[k].view() == apply_log(
                                    before.committed@ + before.pending_entries(),
                                    before.trees@[k].spec_table(),
                                ));
                                assert(self.tree_table(k) != e.table@);
                            }
                            assert forall|k: int| 0 <= k < self.trees@.len() implies (
                            #[trigger] self.trees@[k]).spec_max() == bump_log(
                                start.trees@[k].spec_width(),
                                start.trees@[k].spec_max(),
                                c.push(e@),
                                start.trees@[k].spec_table(),
                            ) by {
                                assert(self.tree_table(k) != e.table@);
                            }
                            assert(start.routed(c.push(e@)) == start.routed(c));
                        }
                    },
                }
                proof {
                    assert(self.committed@ + self.pending_entries() =~= c.push(e@));
                    assert forall|k: int| 0 <= k < self.committed@.len() implies entry_fits(
                        #[trigger] self.committed@[k],
                    ) && crc_ok(self.committed@[k]) by {
                        if k < c.len() {
                            assert(self.committed@[k] == c[k]);
                        }
                    }
                    assert(self.committed@ == fitting(rv.take(i + 1)));
                }
            } else {
                corrupt = corrupt + 1;
                proof {
                    assert(fitting(rv.take(i + 1)) == c);
                }
            }
            i = i + 1;
        }
        proof {
            assert(rv.take(i as int) =~= rv);
            assert(self.pending_entries() =~= Seq::<EntryModel>::empty());
        }
        self.ready = true;
        Ok(RestoreReport { restored, corrupt })
    }

    /// The log's bytes: every committed entry, framed, in commit order.
    pub fn log(&self) -> (r: &Vec<u8>)
        ensures
            r@ == self.log_view(),
            self.wf() ==> r@ == log_bytes(self.committed()),
    {
        &self.log
    }
}

/// Entries that all fit the framing are kept whole.
pub proof fn lemma_fitting_all(es: Seq<EntryModel>)
    requires
        forall|i: int| 0 <= i < es.len() ==> entry_fits(#[trigger] es[i]),
    ensures
        fitting(es) == es,
    decreases es.len(),
{
    if es.len() > 0 {
        lemma_fitting_all(es.drop_last());
        assert(es.drop_last().push(es.last()) =~= es);
    }
}

/// Recovering from a database's log reads every table back as it stood: a
/// database `b` that restored the log of database `a` (with no write
/// waiting) holds, for each tree of the same name, the same table.
pub proof fn lemma_restore_reads_same(a: &Database, b: &Database, i: int, j: int)
    requires
        a.wf(),
        b.wf(),
        a.pending_entries().len() == 0,
        b.pending_entries().len() == 0,
        b.committed() == fitting(replay_valid(a.log_view())),
        0 <= i < a.tree_count(),
        0 <= j < b.tree_count(),
        a.tree_table(i) == b.tree_table(j),
    ensures
        b.tree_view(j) == a.tree_view(i),
{
    let es = a.committed();
    crate::entry::lemma_replay_log(es);
    lemma_fitting_all(es);
    assert(a.committed() + a.pending_entries() =~= es);
    assert(b.committed() + b.pending_entries() =~= es);
    assert(a.trees@[i].view() == apply_log(a.committed@ + a.pending_entries(), a.trees@[i].spec_table()));
    assert(b.trees@[j].view() == apply_log(b.committed@ + b.pending_entries(), b.trees@[j].spec_table()));
}

/// With no write waiting, each table is what the log makes of it.
pub proof fn lemma_tables_follow_log(d: &Database, i: int)
    requires
        d.wf(),
        d.pending_entries().len() == 0,
        0 <= i < d.tree_count(),
    ensures
        d.tree_view(i) == apply_log(d.committed(), d.tree_table(i)),
{
    assert(d.committed() + d.pending_entries() =~= d.committed());
    assert(d.trees@[i].view() == apply_log(d.committed@ + d.pending_entries(), d.trees@[i].spec_table()));
}

/// A group commit that fails leaves every table as it stood before the
/// writes of the batch: `before` had no write waiting, `after` is what a
/// failed `complete_flush` left once those writes were staged.
pub proof fn lemma_failed_flush_changes_nothing(before: &Database, after: &Database, i: int)
    requires
        before.wf(),
        before.pending_entries().len() == 0,
        after.wf(),
        after.committed() == before.committed(),
        0 <= i < before.tree_count(),
        i < after.tree_count(),
        after.tree_table(i) == before.tree_table(i),
        after.tree_view(i) == apply_log(before.committed(), before.tree_table(i)),
    ensures
        after.tree_view(i) == before.tree_view(i),
{
    lemma_tables_follow_log(before, i);
}

/// The data of a slot that holds a record.
pub open spec fn data_of(s: Option<SlotModel>) -> Option<Seq<u8>> {
    match s {
        Some(Some(r)) => Some(r.1),
        _ => None,
    }
}

impl Database {
    /// Live and replayed histories agree: for the write at position `j` of a
    /// log `es`, the old value that a commit hands the derived views is the
    /// value that replaying `es` hands them as the prior one, with the same
    /// key and new value. So an aggregate folds the same sequence of changes
    /// whether it followed the writes live or rebuilt itself from the log.
    pub proof fn lemma_live_and_replayed_agree(&self, es: Seq<EntryModel>, j: int)
        requires
            0 <= j < es.len(),
            self.has_table(es[j].2),
        ensures
            self.routed(es.take(j + 1)).last().1 == es[j].4,
            self.routed(es.take(j + 1)).last().2 == es[j].5,
            self.routed(es.take(j + 1)).last().3 == data_of(slot_after(es.take(j), es[j].2, es[j].4)),
            self.tree_table(self.routed(es.take(j + 1)).last().0) == es[j].2,
    {
        let p = es.take(j + 1);
        assert(p.drop_last() =~= es.take(j));
        assert(p.last() == es[j]);
    }
}

/// Restoring a log that entries were committed to replays each of them
/// exactly once, in commit order, each with its checksum verified: the
/// entries that `restore` commits are exactly the ones written.
pub proof fn lemma_restore_replays_each_once(es: Seq<EntryModel>)
    requires
        forall|i: int| 0 <= i < es.len() ==> entry_fits(#[trigger] es[i]) && crc_ok(es[i]),
    ensures
        fitting(replay_valid(log_bytes(es))) == es,
        crate::entry::replay_corrupt(log_bytes(es)) == 0,
        forall|i: int|
            0 <= i < replay_valid(log_bytes(es)).len() ==> crc_ok(
                #[trigger] replay_valid(log_bytes(es))[i],
            ),
{
    crate::entry::lemma_replay_log(es);
    lemma_fitting_all(es);
}

} // verus!
