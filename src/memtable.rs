//! The in-memory ordered table of one tree: serialized key to a versioned
//! record or a tombstone, kept in lexicographic key order.
use crate::codec::{bytes_eq, lemma_lex_irreflexive, lemma_lex_total, lemma_lex_transitive,
    lex_less, lex_lt};
use vstd::prelude::*;

verus! {

/// A stored value with the schema version it was written under.
#[derive(Debug)]
pub struct MemRecord {
    pub version: u16,
    pub data: Vec<u8>,
}

/// The model of a stored value: its version and its bytes.
pub type RecordModel = (u16, Seq<u8>);

/// The model of a slot: a record, or `None` for a tombstone.
pub type SlotModel = Option<RecordModel>;

pub open spec fn record_model(r: MemRecord) -> RecordModel {
    (r.version, r.data@)
}

pub open spec fn slot_model(s: Option<MemRecord>) -> SlotModel {
    match s {
        Some(r) => Some(record_model(r)),
        None => None,
    }
}

/// Copies a byte vector.
pub fn copy_bytes(v: &Vec<u8>) -> (r: Vec<u8>)
    ensures
        r@ == v@,
{
    let mut r: Vec<u8> = Vec::new();
    let mut i: usize = 0;
    while i < v.len()
        invariant
            i <= v@.len(),
            r@ == v@.subrange(0, i as int),
        decreases v.len() - i,
    {
        r.push(v[i]);
        i = i + 1;
    }
    assert(r@ =~= v@);
    r
}

impl MemRecord {
    /// Copies a record.
    pub fn duplicate(&self) -> (r: MemRecord)
        ensures
            record_model(r) == record_model(*self),
    {
        MemRecord { version: self.version, data: copy_bytes(&self.data) }
    }
}

/// Copies a slot.
pub fn copy_slot(s: &Option<MemRecord>) -> (r: Option<MemRecord>)
    ensures
        slot_model(r) == slot_model(*s),
{
    match s {
        Some(rec) => Some(rec.duplicate()),
        None => None,
    }
}

pub struct MemTable {
    entries: Vec<(Vec<u8>, Option<MemRecord>)>,
    size: usize,
}

/// Keys strictly increasing in lexicographic order.
pub open spec fn sorted_keys(s: Seq<Seq<u8>>) -> bool {
    forall|i: int, j: int| 0 <= i < j < s.len() ==> lex_lt(#[trigger] s[i], #[trigger] s[j])
}

/// The number of bytes that a slot adds to a table's size.
pub open spec fn slot_cost(key: Seq<u8>, value: SlotModel) -> nat {
    key.len() + match value {
        Some(r) => 1 + r.1.len(),
        None => 1,
    }
}

impl MemTable {
    /// The keys, in table order.
    pub closed spec fn keys(&self) -> Seq<Seq<u8>> {
        self.entries@.map_values(|e: (Vec<u8>, Option<MemRecord>)| e.0@)
    }

    /// The slots, in table order.
    pub closed spec fn slots(&self) -> Seq<SlotModel> {
        self.entries@.map_values(|e: (Vec<u8>, Option<MemRecord>)| slot_model(e.1))
    }

    pub closed spec fn wf(&self) -> bool {
        sorted_keys(self.keys())
    }

    /// The table as a map from key to slot.
    pub open spec fn view(&self) -> Map<Seq<u8>, SlotModel> {
        Map::new(
            |k: Seq<u8>| self.keys().contains(k),
            |k: Seq<u8>| self.slots()[self.keys().index_of(k)],
        )
    }

    /// The running byte count of everything written to the table.
    pub closed spec fn size_bytes(&self) -> nat {
        self.size as nat
    }

    pub proof fn lemma_lengths(&self)
        ensures
            self.keys().len() == self.slots().len(),
    {
    }

    /// In a well-formed table each key stands once, so the slot at a key's
    /// position is the slot that the map gives it.
    pub proof fn lemma_view_at(&self, i: int)
        requires
            self.wf(),
            0 <= i < self.keys().len(),
        ensures
            self.view().contains_key(self.keys()[i]),
            self.view()[self.keys()[i]] == self.slots()[i],
    {
        let k = self.keys()[i];
        assert(self.keys().contains(k));
        let j = self.keys().index_of(k);
        if j != i {
            if j < i {
                lemma_lex_irreflexive(k);
            } else {
                lemma_lex_irreflexive(k);
            }
        }
    }

    pub fn new() -> (r: MemTable)
        ensures
            r.wf(),
            r.view() == Map::<Seq<u8>, SlotModel>::empty(),
            r.keys().len() == 0,
            r.size_bytes() == 0,
    {
        let r = MemTable { entries: Vec::new(), size: 0 };
        assert(r.view() =~= Map::<Seq<u8>, SlotModel>::empty());
        r
    }

    /// The number of keys, tombstones included.
    pub fn len(&self) -> (r: usize)
        ensures
            r == self.keys().len(),
    {
        self.entries.len()
    }

    pub fn is_empty(&self) -> (r: bool)
        requires
            self.wf(),
        ensures
            r == (self.view().dom().len() == 0),
            r == (self.keys().len() == 0),
    {
        proof {
            self.lemma_dom_finite_len();
        }
        self.entries.len() == 0
    }

    proof fn lemma_dom_finite_len(&self)
        requires
            self.wf(),
        ensures
            self.view().dom().finite(),
            self.view().dom().len() == 0 <==> self.keys().len() == 0,
    {
        let d = self.view().dom();
        assert(d =~= self.keys().to_set());
        self.keys().lemma_cardinality_of_set();
        if self.keys().len() > 0 {
            assert(d.contains(self.keys()[0]));
        }
        if d.len() == 0 {
            if self.keys().len() > 0 {
                vstd::set_lib::lemma_set_empty_equivalency_len(d);
                assert(d.contains(self.keys()[0]));
            }
        }
    }

    /// The number of keys in the map is the number of entries.
    pub proof fn lemma_dom_len(&self)
        requires
            self.wf(),
        ensures
            self.view().dom().finite(),
            self.view().dom().len() == self.keys().len(),
    {
        let d = self.view().dom();
        assert(d =~= self.keys().to_set());
        assert(self.keys().no_duplicates()) by {
            assert forall|i: int, j: int|
                0 <= i < self.keys().len() && 0 <= j < self.keys().len() && i != j implies self.keys()[i]
                != self.keys()[j] by {
                if i < j {
                    lemma_lex_irreflexive(self.keys()[i]);
                } else {
                    lemma_lex_irreflexive(self.keys()[j]);
                }
            }
        }
        self.keys().unique_seq_to_set();
    }

    /// Takes the slot at `key` out of the table, if there is one.
    pub fn remove(&mut self, key: &[u8]) -> (r: Option<Option<MemRecord>>)
        requires
            old(self).wf(),
        ensures
            final(self).wf(),
            final(self).view() == old(self).view().remove(key@),
            final(self).size_bytes() == old(self).size_bytes(),
            match r {
                Some(s) => old(self).view().contains_key(key@) && old(self).view()[key@] == slot_model(s),
                None => !old(self).view().contains_key(key@),
            },
    {
        let ghost old_keys = self.keys();
        let ghost old_slots = self.slots();
        let ghost oldv = self.view();
        let (i, found) = self.find(key);
        if !found {
            proof {
                if self.keys().contains(key@) {
                    let j = self.keys().index_of(key@);
                    lemma_lex_irreflexive(key@);
                    if j >= i {
                        assert(lex_lt(key@, self.keys()[j]));
                    } else {
                        assert(lex_lt(self.keys()[j], key@));
                    }
                }
                assert(self.view() =~= oldv.remove(key@));
            }
            return None;
        }
        proof {
            self.lemma_view_at(i as int);
        }
        let (_k, s) = self.entries.remove(i);
        proof {
            assert(self.keys() =~= old_keys.remove(i as int));
            assert(self.slots() =~= old_slots.remove(i as int));
            assert(self.wf());
            assert forall|q: Seq<u8>| #[trigger] self.view().contains_key(q) <==> oldv.remove(
                key@,
            ).contains_key(q) by {
                if self.keys().contains(q) {
                    let j = self.keys().index_of(q);
                    if j < i {
                        assert(old_keys[j] == q);
                        assert(lex_lt(q, key@));
                        lemma_lex_irreflexive(q);
                    } else {
                        assert(old_keys[j + 1] == q);
                        assert(lex_lt(key@, q));
                        lemma_lex_irreflexive(q);
                    }
                    assert(old_keys.contains(q));
                }
                if oldv.contains_key(q) && q != key@ {
                    let j = old_keys.index_of(q);
                    if j < i {
                        assert(self.keys()[j] == q);
                    } else {
                        assert(j != i);
                        assert(self.keys()[j - 1] == q);
                    }
                    assert(self.keys().contains(q));
                }
            }
            assert forall|q: Seq<u8>| #[trigger] self.view().contains_key(q) implies self.view()[q]
                == oldv[q] by {
                let j = self.keys().index_of(q);
                self.lemma_view_at(j);
                let oj = if j < i {
                    j
                } else {
                    j + 1
                };
                assert(old_keys[oj] == q);
                let oi = old_keys.index_of(q);
                if oi != oj {
                    lemma_lex_irreflexive(q);
                }
            }
            assert(self.view() =~= oldv.remove(key@));
        }
        Some(s)
    }

    /// The position of the first key not below `key`, and whether it is `key`.
    fn find(&self, key: &[u8]) -> (r: (usize, bool))
        requires
            self.wf(),
        ensures
            r.0 <= self.keys().len(),
            forall|j: int| 0 <= j < r.0 ==> lex_lt(#[trigger] self.keys()[j], key@),
            r.1 ==> r.0 < self.keys().len() && self.keys()[r.0 as int] == key@,
            !r.1 ==> forall|j: int|
                r.0 <= j < self.keys().len() ==> lex_lt(key@, #[trigger] self.keys()[j]),
    {
        let mut i: usize = 0;
        while i < self.entries.len()
            invariant
                self.wf(),
                i <= self.keys().len(),
                self.keys().len() == self.entries@.len(),
                forall|j: int| 0 <= j < i ==> lex_lt(#[trigger] self.keys()[j], key@),
            decreases self.entries.len() - i,
        {
            assert(self.keys()[i as int] == self.entries@[i as int].0@);
            if !lex_less(self.entries[i].0.as_slice(), key) {
                let same = bytes_eq(self.entries[i].0.as_slice(), key);
                if !same {
                    proof {
                        lemma_lex_total(self.keys()[i as int], key@);
                        assert forall|j: int| i <= j < self.keys().len() implies lex_lt(
                            key@,
                            #[trigger] self.keys()[j],
                        ) by {
                            if j > i {
                                lemma_lex_transitive(key@, self.keys()[i as int], self.keys()[j]);
                            }
                        }
                    }
                }
                return (i, same);
            }
            i = i + 1;
        }
        (i, false)
    }

    /// Writes `value` (or a tombstone) at `key` under `version`; returns the
    /// table's running size in bytes.
    pub fn insert(&mut self, key: Vec<u8>, version: u16, value: Option<Vec<u8>>) -> (r: usize)
        requires
            old(self).wf(),
        ensures
            final(self).wf(),
            final(self).view() == old(self).view().insert(
                key@,
                match value {
                    Some(d) => Some((version, d@)),
                    None => None,
                },
            ),
            r == final(self).size_bytes(),
            r == if old(self).size_bytes() + slot_cost(
                key@,
                match value {
                    Some(d) => Some((version, d@)),
                    None => None,
                },
            ) > usize::MAX {
                usize::MAX as nat
            } else {
                old(self).size_bytes() + slot_cost(
                    key@,
                    match value {
                        Some(d) => Some((version, d@)),
                        None => None,
                    },
                )
            },
    {
        let cost: usize = match &value {
            Some(d) => if d.len() < usize::MAX { 1 + d.len() } else { usize::MAX },
            None => 1,
        };
        let cost = key.len().saturating_add(cost);
        let slot: Option<MemRecord> = match value {
            Some(data) => Some(MemRecord { version, data }),
            None => None,
        };
        self.put(key, slot);
        self.size = self.size.saturating_add(cost);
        self.size
    }

    /// Writes a slot at `key`, replacing what stood there.
    pub fn put(&mut self, key: Vec<u8>, slot: Option<MemRecord>)
        requires
            old(self).wf(),
        ensures
            final(self).wf(),
            final(self).view() == old(self).view().insert(key@, slot_model(slot)),
            final(self).size_bytes() == old(self).size_bytes(),
    {
        let ghost old_keys = self.keys();
        let ghost old_slots = self.slots();
        let (i, found) = self.find(key.as_slice());
        let ghost k = key@;
        let ghost s = slot_model(slot);
        if found {
            self.entries.set(i, (key, slot));
            proof {
                assert(self.keys() =~= old_keys.update(i as int, k));
                assert(self.slots() =~= old_slots.update(i as int, s));
            }
        } else {
            self.entries.insert(i, (key, slot));
            proof {
                assert(self.keys() =~= old_keys.insert(i as int, k));
                assert(self.slots() =~= old_slots.insert(i as int, s));
            }
        }
        proof {
            assert(self.wf()) by {
                assert forall|a: int, b: int|
                    0 <= a < b < self.keys().len() implies lex_lt(
                    #[trigger] self.keys()[a],
                    #[trigger] self.keys()[b],
                ) by {
                    if !found {
                        if a < i && b > i {
                            lemma_lex_transitive(self.keys()[a], k, self.keys()[b]);
                        }
                    } else {
                        if a < i && b > i {
                            lemma_lex_transitive(self.keys()[a], k, self.keys()[b]);
                        }
                    }
                }
            }
            self.lemma_put_view(old_keys, old_slots, i as int, found, k, s);
        }
    }

    proof fn lemma_put_view(
        &self,
        old_keys: Seq<Seq<u8>>,
        old_slots: Seq<SlotModel>,
        i: int,
        found: bool,
        k: Seq<u8>,
        s: SlotModel,
    )
        requires
            self.wf(),
            sorted_keys(old_keys),
            old_keys.len() == old_slots.len(),
            0 <= i <= old_keys.len(),
            found ==> i < old_keys.len() && old_keys[i] == k && self.keys() == old_keys.update(i, k) && self.slots()
                == old_slots.update(i, s),
            !found ==> self.keys() == old_keys.insert(i, k) && self.slots() == old_slots.insert(
                i,
                s,
            ),
        ensures
            self.view() == Map::new(
                |q: Seq<u8>| old_keys.contains(q),
                |q: Seq<u8>| old_slots[old_keys.index_of(q)],
            ).insert(k, s),
    {
        let oldm = Map::new(
            |q: Seq<u8>| old_keys.contains(q),
            |q: Seq<u8>| old_slots[old_keys.index_of(q)],
        );
        let want = oldm.insert(k, s);
        assert forall|q: Seq<u8>| #[trigger] self.view().contains_key(q) <==> want.contains_key(q) by {
            if self.keys().contains(q) {
                let j = self.keys().index_of(q);
                if q != k {
                    if found {
                        assert(old_keys[j] == q);
                    } else {
                        if j < i {
                            assert(old_keys[j] == q);
                        } else {
                            assert(old_keys[j - 1] == q);
                        }
                    }
                    assert(old_keys.contains(q));
                }
            }
            if old_keys.contains(q) {
                let j = old_keys.index_of(q);
                if found {
                    assert(self.keys()[j] == q);
                } else {
                    if j < i {
                        assert(self.keys()[j] == q);
                    } else {
                        assert(self.keys()[j + 1] == q);
                    }
                }
                assert(self.keys().contains(q));
            }
            if q == k {
                assert(self.keys()[i] == k);
                assert(self.keys().contains(q));
            }
        }
        assert forall|q: Seq<u8>| #[trigger] self.view().contains_key(q) implies self.view()[q]
            == want[q] by {
            let j = self.keys().index_of(q);
            self.lemma_view_at(j);
            if q == k {
                assert(self.keys()[i] == k);
                self.lemma_view_at(i);
            } else {
                let oj = if found || j < i {
                    j
                } else {
                    j - 1
                };
                assert(old_keys[oj] == q);
                assert(old_keys.contains(q));
                let oi = old_keys.index_of(q);
                if oi != oj {
                    lemma_lex_irreflexive(q);
                }
            }
        }
        assert(self.view() =~= want);
    }

    /// The record at `key`; a tombstone and an absent key both give `None`.
    pub fn get(&self, key: &[u8]) -> (r: Option<MemRecord>)
        requires
            self.wf(),
        ensures
            match r {
                Some(rec) => self.view().contains_key(key@) && self.view()[key@] == Some(
                    record_model(rec),
                ),
                None => !self.view().contains_key(key@) || self.view()[key@] is None,
            },
    {
        match self.lookup(key) {
            Some(slot) => slot,
            None => None,
        }
    }

    /// The slot at `key`: `None` when the key is absent, `Some(None)` for a
    /// tombstone.
    pub fn lookup(&self, key: &[u8]) -> (r: Option<Option<MemRecord>>)
        requires
            self.wf(),
        ensures
            match r {
                Some(slot) => self.view().contains_key(key@) && self.view()[key@] == slot_model(
                    slot,
                ),
                None => !self.view().contains_key(key@),
            },
    {
        let (i, found) = self.find(key);
        if found {
            proof {
                self.lemma_view_at(i as int);
                assert(self.slots()[i as int] == slot_model(self.entries@[i as int].1));
            }
            Some(copy_slot(&self.entries[i].1))
        } else {
            proof {
                if self.keys().contains(key@) {
                    let j = self.keys().index_of(key@);
                    lemma_lex_irreflexive(key@);
                    if j >= i {
                        assert(lex_lt(key@, self.keys()[j]));
                    } else {
                        assert(lex_lt(self.keys()[j], key@));
                    }
                }
            }
            None
        }
    }

    fn entry_at(&self, i: usize) -> (r: (Vec<u8>, Option<MemRecord>))
        requires
            self.wf(),
            i < self.keys().len(),
        ensures
            r.0@ == self.keys()[i as int],
            slot_model(r.1) == self.slots()[i as int],
            self.view().contains_key(r.0@),
            self.view()[r.0@] == slot_model(r.1),
    {
        proof {
            self.lemma_view_at(i as int);
        }
        (copy_bytes(&self.entries[i].0), copy_slot(&self.entries[i].1))
    }

    /// The entry with the lowest key.
    pub fn get_first(&self) -> (r: Option<(Vec<u8>, Option<MemRecord>)>)
        requires
            self.wf(),
        ensures
            r is None <==> self.view().dom().len() == 0,
            r matches Some(e) ==> self.view().contains_key(e.0@) && self.view()[e.0@]
                == slot_model(e.1) && forall|k: Seq<u8>| #[trigger]
                self.view().contains_key(k) && k != e.0@ ==> lex_lt(e.0@, k),
    {
        proof {
            self.lemma_dom_finite_len();
        }
        if self.entries.len() == 0 {
            None
        } else {
            let e = self.entry_at(0);
            proof {
                assert forall|k: Seq<u8>| #[trigger]
                    self.view().contains_key(k) && k != e.0@ implies lex_lt(e.0@, k) by {
                    let j = self.keys().index_of(k);
                    assert(j != 0);
                }
            }
            Some(e)
        }
    }

    /// The entry with the highest key.
    pub fn get_last(&self) -> (r: Option<(Vec<u8>, Option<MemRecord>)>)
        requires
            self.wf(),
        ensures
            r is None <==> self.view().dom().len() == 0,
            r matches Some(e) ==> self.view().contains_key(e.0@) && self.view()[e.0@]
                == slot_model(e.1) && forall|k: Seq<u8>| #[trigger]
                self.view().contains_key(k) && k != e.0@ ==> lex_lt(k, e.0@),
    {
        proof {
            self.lemma_dom_finite_len();
        }
        if self.entries.len() == 0 {
            None
        } else {
            let n = self.entries.len() - 1;
            let e = self.entry_at(n);
            proof {
                assert forall|k: Seq<u8>| #[trigger]
                    self.view().contains_key(k) && k != e.0@ implies lex_lt(k, e.0@) by {
                    let j = self.keys().index_of(k);
                    assert(j != n);
                }
            }
            Some(e)
        }
    }

    /// Every entry, in key order.
    pub fn as_sorted_vec(&self) -> (r: Vec<(Vec<u8>, Option<MemRecord>)>)
        requires
            self.wf(),
        ensures
            r@.len() == self.keys().len(),
            forall|i: int| 0 <= i < r@.len() ==> (#[trigger] r@[i]).0@ == self.keys()[i],
            forall|i: int| 0 <= i < r@.len() ==> slot_model((#[trigger] r@[i]).1) == self.slots()[i],
            sorted_keys(self.keys()),
            forall|k: Seq<u8>| self.view().contains_key(k) <==> self.keys().contains(k),
    {
        let mut out: Vec<(Vec<u8>, Option<MemRecord>)> = Vec::new();
        let mut i: usize = 0;
        while i < self.entries.len()
            invariant
                self.wf(),
                i <= self.keys().len(),
                self.keys().len() == self.entries@.len(),
                out@.len() == i,
                forall|j: int| 0 <= j < i ==> (#[trigger] out@[j]).0@ == self.keys()[j],
                forall|j: int| 0 <= j < i ==> slot_model((#[trigger] out@[j]).1) == self.slots()[j],
            decreases self.entries.len() - i,
        {
            let e = self.entry_at(i);
            out.push(e);
            i = i + 1;
        }
        out
    }
}

} // verus!
