//! A typed tree: one table of records under a schema history, with its key
//! allocator.
use crate::codec::{decode_key, encode_key, key_of, lemma_key_round_trip, KeyWidth};
use crate::entry::{append_all, crc32_iscsi, crc32_iscsi_of};
use crate::memtable::{copy_bytes, slot_model, MemRecord, MemTable, SlotModel};
use vstd::prelude::*;
use vstd::string::StringSliceAdditionalSpecFns;

verus! {

/// One version of a tree's schema: the names of its key and value types, the
/// default value in two encodings, and a checksum over all of these and the
/// table name.
#[derive(Debug)]
pub struct VersionedTree {
    pub sequence: u64,
    pub key_name: String,
    pub value_name: String,
    pub value_json: Vec<u8>,
    pub value_binary: Vec<u8>,
    pub hash: u32,
}

/// The bytes that a schema version's checksum covers.
pub open spec fn schema_hash_input(
    table: Seq<u8>,
    key_name: Seq<u8>,
    value_name: Seq<u8>,
    value_json: Seq<u8>,
    value_binary: Seq<u8>,
) -> Seq<u8> {
    value_json + value_binary + value_name + key_name + table
}

impl VersionedTree {
    /// Describes a schema version of table `table_name` and computes its
    /// checksum.
    pub fn new(
        sequence: u64,
        table_name: &str,
        key_name: &str,
        value_name: &str,
        value_json: Vec<u8>,
        value_binary: Vec<u8>,
    ) -> (r: VersionedTree)
        ensures
            r.sequence == sequence,
            r.key_name@ == key_name@,
            r.value_name@ == value_name@,
            r.value_json@ == value_json@,
            r.value_binary@ == value_binary@,
            r.hash == crc32_iscsi_of(
                schema_hash_input(
                    table_name.spec_bytes(),
                    key_name.spec_bytes(),
                    value_name.spec_bytes(),
                    value_json@,
                    value_binary@,
                ),
            ),
    {
        let mut input = copy_bytes(&value_json);
        append_all(&mut input, value_binary.as_slice());
        append_all(&mut input, value_name.as_bytes());
        append_all(&mut input, key_name.as_bytes());
        append_all(&mut input, table_name.as_bytes());
        let hash = crc32_iscsi(input.as_slice());
        VersionedTree {
            sequence,
            key_name: key_name.to_owned(),
            value_name: value_name.to_owned(),
            value_json,
            value_binary,
            hash,
        }
    }
}

fn copy_bytes_of(s: &[u8]) -> (r: Vec<u8>)
    ensures
        r@ == s@,
{
    let mut r: Vec<u8> = Vec::new();
    append_all(&mut r, s);
    r
}

/// What a read finds at a key.
#[derive(Debug)]
pub enum Lookup {
    /// No record at the key.
    Absent,
    /// A tombstone.
    Deleted,
    /// A record written under the current schema version.
    Current(Vec<u8>),
    /// A record written under an older version: it must be upgraded from
    /// `version` before it is handed out.
    Stale { version: u16, data: Vec<u8> },
}

/// Which end of a tree to read.
#[derive(Debug, Clone, Copy, PartialEq, Eq, Structural)]
pub enum ListEnd {
    Head,
    Tail,
}

/// How a slot reads under current version `cur`.
pub open spec fn lookup_of(slot: Option<SlotModel>, cur: u16, l: Lookup) -> bool {
    match slot {
        None => l is Absent,
        Some(None) => l is Deleted,
        Some(Some((v, d))) => if v == cur {
            l matches Lookup::Current(x) && x@ == d
        } else {
            l matches Lookup::Stale { version, data } && version == v && data@ == d
        },
    }
}

/// The largest decodable key in `m` is at most `max`, and there is none
/// when `max` is `None`.
pub open spec fn max_covers(m: Map<Seq<u8>, SlotModel>, w: KeyWidth, max: Option<u64>) -> bool {
    forall|k: Seq<u8>| #[trigger]
        m.contains_key(k) && key_of(w, k) is Some ==> max is Some && key_of(w, k).unwrap()
            <= max.unwrap()
}

/// The allocator's next key after `max` at width `w`; `None` once the
/// width's largest key has been handed out.
pub open spec fn next_key_after(w: KeyWidth, max: Option<u64>) -> Option<u64> {
    match max {
        None => Some(0),
        Some(m) => if m >= w.max_key() {
            None
        } else {
            Some((m + 1) as u64)
        },
    }
}

/// The largest key seen, after key bytes `k` were written.
pub open spec fn bump(w: KeyWidth, max: Option<u64>, k: Seq<u8>) -> Option<u64> {
    match key_of(w, k) {
        None => max,
        Some(x) => match max {
            None => Some(x),
            Some(m) => if x > m {
                Some(x)
            } else {
                Some(m)
            },
        },
    }
}

pub struct Tree {
    name: String,
    table: Vec<u8>,
    width: KeyWidth,
    versions: Vec<VersionedTree>,
    memtable: MemTable,
    max: Option<u64>,
}

impl Tree {
    pub closed spec fn spec_name(&self) -> Seq<char> {
        self.name@
    }

    /// The table name's UTF-8 bytes, as log entries carry it.
    pub closed spec fn spec_table(&self) -> Seq<u8> {
        self.table@
    }

    pub closed spec fn spec_width(&self) -> KeyWidth {
        self.width
    }

    /// The current schema version: the index of the last one.
    pub closed spec fn current(&self) -> u16 {
        (self.versions@.len() - 1) as u16
    }

    pub closed spec fn version_count(&self) -> nat {
        self.versions@.len()
    }

    /// The table: key bytes to slot.
    pub closed spec fn view(&self) -> Map<Seq<u8>, SlotModel> {
        self.memtable.view()
    }

    /// The largest key handed out or written.
    pub closed spec fn spec_max(&self) -> Option<u64> {
        self.max
    }

    pub closed spec fn wf(&self) -> bool {
        &&& self.memtable.wf()
        &&& 1 <= self.versions@.len() <= u16::MAX
        &&& self.max matches Some(m) ==> m <= self.width.max_key()
        &&& max_covers(self.memtable.view(), self.width, self.max)
    }

    /// What well-formedness gives a caller.
    pub proof fn lemma_wf(&self)
        requires
            self.wf(),
        ensures
            max_covers(self.view(), self.spec_width(), self.spec_max()),
            self.spec_max() matches Some(m) ==> m <= self.spec_width().max_key(),
            1 <= self.version_count() <= u16::MAX,
            self.current() == self.version_count() - 1,
    {
    }

    /// A tree with the given schema history and nothing in it.
    pub fn new(name: &str, width: KeyWidth, versions: Vec<VersionedTree>) -> (r: Tree)
        requires
            1 <= versions@.len() <= u16::MAX,
        ensures
            r.wf(),
            r.spec_name() == name@,
            r.spec_table() == name.spec_bytes(),
            r.spec_width() == width,
            r.version_count() == versions@.len(),
            r.current() == versions@.len() - 1,
            r.view() == Map::<Seq<u8>, SlotModel>::empty(),
            r.spec_max() is None,
    {
        let table = copy_bytes_of(name.as_bytes());
        Tree { name: name.to_owned(), table, width, versions, memtable: MemTable::new(), max: None }
    }

    pub fn name(&self) -> (r: &String)
        ensures
            r@ == self.spec_name(),
    {
        &self.name
    }

    /// The table name's bytes.
    pub fn table(&self) -> (r: &Vec<u8>)
        ensures
            r@ == self.spec_table(),
    {
        &self.table
    }

    pub fn width(&self) -> (r: KeyWidth)
        ensures
            r == self.spec_width(),
    {
        self.width
    }

    /// The current schema version.
    pub fn version(&self) -> (r: u16)
        requires
            self.wf(),
        ensures
            r == self.current(),
    {
        (self.versions.len() - 1) as u16
    }

    /// The schema history, oldest first.
    pub fn versions(&self) -> (r: &Vec<VersionedTree>)
        ensures
            r@.len() == self.version_count(),
    {
        &self.versions
    }

    /// The largest key handed out or written.
    pub fn max_key(&self) -> (r: Option<u64>)
        ensures
            r == self.spec_max(),
    {
        self.max
    }

    /// The key that the next insert gets: one past the largest key seen, zero
    /// in an empty tree, `None` when the key type has no larger value.
    pub fn next_key(&self) -> (r: Option<u64>)
        requires
            self.wf(),
        ensures
            r == next_key_after(self.spec_width(), self.spec_max()),
            r matches Some(x) ==> x <= self.spec_width().max_key() && forall|k: Seq<u8>| #[trigger]
                self.view().contains_key(k) && key_of(self.spec_width(), k) is Some ==> key_of(
                    self.spec_width(),
                    k,
                ).unwrap() < x,
    {
        match self.max {
            None => Some(0),
            Some(m) => if m >= self.width.max_value() {
                None
            } else {
                Some(m + 1)
            },
        }
    }

    /// Writes a slot as the log has it: the table and the largest key seen
    /// follow.
    pub fn apply(&mut self, key: Vec<u8>, version: u16, value: Option<Vec<u8>>)
        requires
            old(self).wf(),
        ensures
            final(self).wf(),
            final(self).view() == old(self).view().insert(
                key@,
                match value {
                    Some(d) => Some((version, d@)),
                    None => None,
                },
            ),
            final(self).spec_max() == bump(old(self).spec_width(), old(self).spec_max(), key@),
            final(self).spec_name() == old(self).spec_name(),
            final(self).spec_table() == old(self).spec_table(),
            final(self).spec_width() == old(self).spec_width(),
            final(self).current() == old(self).current(),
            final(self).version_count() == old(self).version_count(),
    {
        let decoded = decode_key(self.width, key.as_slice());
        self.memtable.insert(key, version, value);
        match decoded {
            None => {},
            Some(x) => match self.max {
                None => {
                    self.max = Some(x);
                },
                Some(m) => if x > m {
                    self.max = Some(x);
                },
            },
        }
    }

    /// Puts back a slot and the largest key seen as they were before a write
    /// that did not reach the log.
    pub fn restore_slot(&mut self, key: Vec<u8>, prior: Option<Option<MemRecord>>, max: Option<u64>)
        requires
            old(self).wf(),
            max matches Some(m) ==> m <= old(self).spec_width().max_key(),
            max_covers(
                match prior {
                    Some(s) => old(self).view().insert(key@, slot_model(s)),
                    None => old(self).view().remove(key@),
                },
                old(self).spec_width(),
                max,
            ),
        ensures
            final(self).wf(),
            final(self).view() == match prior {
                Some(s) => old(self).view().insert(key@, slot_model(s)),
                None => old(self).view().remove(key@),
            },
            final(self).spec_max() == max,
            final(self).spec_name() == old(self).spec_name(),
            final(self).spec_table() == old(self).spec_table(),
            final(self).spec_width() == old(self).spec_width(),
            final(self).current() == old(self).current(),
            final(self).version_count() == old(self).version_count(),
    {
        match prior {
            Some(s) => self.memtable.put(key, s),
            None => {
                self.memtable.remove(key.as_slice());
            },
        }
        self.max = max;
    }

    /// The slot at key bytes `key`, copied.
    pub fn slot(&self, key: &[u8]) -> (r: Option<Option<MemRecord>>)
        requires
            self.wf(),
        ensures
            match r {
                Some(s) => self.view().contains_key(key@) && self.view()[key@] == slot_model(s),
                None => !self.view().contains_key(key@),
            },
    {
        self.memtable.lookup(key)
    }

    fn classify(&self, slot: Option<Option<MemRecord>>) -> (r: Lookup)
        requires
            self.wf(),
        ensures
            lookup_of(
                match slot {
                    Some(s) => Some(slot_model(s)),
                    None => None,
                },
                self.current(),
                r,
            ),
    {
        let cur = self.version();
        match slot {
            None => Lookup::Absent,
            Some(None) => Lookup::Deleted,
            Some(Some(rec)) => if rec.version == cur {
                Lookup::Current(rec.data)
            } else {
                Lookup::Stale { version: rec.version, data: rec.data }
            },
        }
    }

    /// Reads the record at key bytes `key`.
    pub fn get_bytes(&self, key: &[u8]) -> (r: Lookup)
        requires
            self.wf(),
        ensures
            lookup_of(
                if self.view().contains_key(key@) {
                    Some(self.view()[key@])
                } else {
                    None
                },
                self.current(),
                r,
            ),
    {
        let s = self.memtable.lookup(key);
        self.classify(s)
    }

    /// Reads the record at key `key`.
    pub fn get(&self, key: u64) -> (r: Lookup)
        requires
            self.wf(),
            key <= self.spec_width().max_key(),
        ensures
            lookup_of(
                if self.view().contains_key(crate::codec::key_bytes(self.spec_width(), key)) {
                    Some(self.view()[crate::codec::key_bytes(self.spec_width(), key)])
                } else {
                    None
                },
                self.current(),
                r,
            ),
    {
        let k = encode_key(self.width, key);
        self.get_bytes(k.as_slice())
    }

    /// The entry with the lowest key bytes.
    pub fn get_first(&self) -> (r: Option<(Vec<u8>, Lookup)>)
        requires
            self.wf(),
        ensures
            r is None <==> self.view().dom().len() == 0,
            r matches Some(e) ==> self.view().contains_key(e.0@) && lookup_of(
                Some(self.view()[e.0@]),
                self.current(),
                e.1,
            ) && forall|k: Seq<u8>| #[trigger]
                self.view().contains_key(k) && k != e.0@ ==> crate::codec::lex_lt(e.0@, k),
    {
        match self.memtable.get_first() {
            None => None,
            Some((k, s)) => {
                let l = self.classify(Some(s));
                Some((k, l))
            },
        }
    }

    /// The entry with the highest key bytes.
    pub fn get_last(&self) -> (r: Option<(Vec<u8>, Lookup)>)
        requires
            self.wf(),
        ensures
            r is None <==> self.view().dom().len() == 0,
            r matches Some(e) ==> self.view().contains_key(e.0@) && lookup_of(
                Some(self.view()[e.0@]),
                self.current(),
                e.1,
            ) && forall|k: Seq<u8>| #[trigger]
                self.view().contains_key(k) && k != e.0@ ==> crate::codec::lex_lt(k, e.0@),
    {
        match self.memtable.get_last() {
            None => None,
            Some((k, s)) => {
                let l = self.classify(Some(s));
                Some((k, l))
            },
        }
    }

    /// The entry at one end of the tree: the lowest key bytes for `Head`, the
    /// highest for `Tail`.
    pub fn list_end(&self, end: ListEnd) -> (r: Option<(Vec<u8>, Lookup)>)
        requires
            self.wf(),
        ensures
            r is None <==> self.view().dom().len() == 0,
            r matches Some(e) ==> self.view().contains_key(e.0@) && lookup_of(
                Some(self.view()[e.0@]),
                self.current(),
                e.1,
            ) && forall|k: Seq<u8>| #[trigger]
                self.view().contains_key(k) && k != e.0@ ==> match end {
                    ListEnd::Head => crate::codec::lex_lt(e.0@, k),
                    ListEnd::Tail => crate::codec::lex_lt(k, e.0@),
                },
    {
        match end {
            ListEnd::Head => self.get_first(),
            ListEnd::Tail => self.get_last(),
        }
    }

    /// Every entry in key order, each read as `get_bytes` reads it.
    pub fn list(&self) -> (r: Vec<(Vec<u8>, Lookup)>)
        requires
            self.wf(),
        ensures
            r@.len() == self.view().dom().len(),
            forall|i: int, j: int|
                0 <= i < j < r@.len() ==> crate::codec::lex_lt(
                    (#[trigger] r@[i]).0@,
                    (#[trigger] r@[j]).0@,
                ),
            forall|i: int|
                0 <= i < r@.len() ==> self.view().contains_key((#[trigger] r@[i]).0@) && lookup_of(
                    Some(self.view()[r@[i].0@]),
                    self.current(),
                    r@[i].1,
                ),
            forall|k: Seq<u8>|
                #![trigger self.view().contains_key(k)]
                self.view().contains_key(k) ==> exists|i: int| 0 <= i < r@.len() && r@[i].0@ == k,
    {
        let all = self.memtable.as_sorted_vec();
        let mut out: Vec<(Vec<u8>, Lookup)> = Vec::new();
        let mut i: usize = 0;
        proof {
            self.memtable.lemma_lengths();
            self.memtable.lemma_dom_len();
        }
        while i < all.len()
            invariant
                self.wf(),
                i <= all@.len(),
                all@.len() == self.memtable.keys().len(),
                forall|j: int| 0 <= j < all@.len() ==> (#[trigger] all@[j]).0@ == self.memtable.keys()[j],
                forall|j: int| 0 <= j < all@.len() ==> slot_model((#[trigger] all@[j]).1) == self.memtable.slots()[j],
                out@.len() == i,
                forall|j: int| 0 <= j < i ==> (#[trigger] out@[j]).0@ == self.memtable.keys()[j],
                forall|j: int|
                    0 <= j < i ==> lookup_of(
                        Some(self.memtable.slots()[j]),
                        self.current(),
                        (#[trigger] out@[j]).1,
                    ),
            decreases all.len() - i,
        {
            let k = copy_bytes(&all[i].0);
            let l = self.classify(Some(crate::memtable::copy_slot(&all[i].1)));
            out.push((k, l));
            i = i + 1;
        }
        proof {
            assert forall|a: int| 0 <= a < out@.len() implies self.view().contains_key(
                (#[trigger] out@[a]).0@,
            ) && lookup_of(Some(self.view()[out@[a].0@]), self.current(), out@[a].1) by {
                self.memtable.lemma_view_at(a);
            }
            assert forall|k: Seq<u8>| self.view().contains_key(k) implies exists|a: int|
                0 <= a < out@.len() && out@[a].0@ == k by {
                let a = self.memtable.keys().index_of(k);
                assert(out@[a].0@ == k);
            }
        }
        out
    }
}

/// Keys come out strictly increasing: after key `k` was allocated and
/// written, the next allocation, if any, is larger.
pub proof fn lemma_allocated_keys_increase(w: KeyWidth, max: Option<u64>)
    requires
        max matches Some(m) ==> m <= w.max_key(),
        next_key_after(w, max) is Some,
    ensures
        ({
            let k = next_key_after(w, max).unwrap();
            &&& bump(w, max, crate::codec::key_bytes(w, k)) == Some(k)
            &&& next_key_after(w, Some(k)) matches Some(k2) ==> k2 > k
        }),
{
    let k = next_key_after(w, max).unwrap();
    lemma_key_round_trip(w, k);
}

/// A stale record rewritten under the current version reads as current, so
/// a second read finds nothing left to upgrade and writes nothing.
pub proof fn lemma_upgrade_settles(cur: u16, d: Seq<u8>, l: Lookup)
    requires
        lookup_of(Some(Some((cur, d))), cur, l),
    ensures
        l matches Lookup::Current(x) && x@ == d,
{
}

/// A whole sequence of inserts into one tree gets strictly increasing keys.
/// Insert `i` is handed `ks[i]`, allocated after the largest key `maxes[i]`.
/// Each insert leaves that largest key at its own key, and later writes only
/// raise it, so `maxes[i]` is at least `ks[i - 1]`.
pub proof fn lemma_insert_sequence_increases(w: KeyWidth, ks: Seq<u64>, maxes: Seq<Option<u64>>)
    requires
        ks.len() == maxes.len(),
        forall|i: int| 0 <= i < ks.len() ==> next_key_after(w, #[trigger] maxes[i]) == Some(ks[i]),
        forall|i: int|
            1 <= i < ks.len() ==> (#[trigger] maxes[i]) is Some && maxes[i].unwrap() >= ks[i - 1],
    ensures
        forall|i: int, j: int| 0 <= i < j < ks.len() ==> ks[i] < ks[j],
    decreases ks.len(),
{
    if ks.len() > 1 {
        let n = ks.len() - 1;
        lemma_insert_sequence_increases(w, ks.drop_last(), maxes.drop_last());
        assert(next_key_after(w, maxes[n]) == Some(ks[n]));
        assert(maxes[n] is Some && maxes[n].unwrap() >= ks[n - 1]);
        assert forall|i: int, j: int| 0 <= i < j < ks.len() implies ks[i] < ks[j] by {
            if j < n {
                assert(ks.drop_last()[i] == ks[i] && ks.drop_last()[j] == ks[j]);
            } else if i < n - 1 {
                assert(ks.drop_last()[i] == ks[i] && ks.drop_last()[n - 1] == ks[n - 1]);
            }
        }
    }
}

} // verus!
