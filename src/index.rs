//! Secondary indexes: for each bucket, the keys of the source records whose
//! identity is that bucket.
use crate::buckets::{lemma_with_key, lemma_without_key, with_key, without_key, Buckets};
use crate::codec::{key_bytes, KeyWidth};
use crate::database::{Change, Update};
use crate::memtable::SlotModel;
use crate::tree::{lookup_of, Lookup, Tree};
use vstd::prelude::*;

verus! {

/// The bucket lists after source key `key` moved from bucket `from` to
/// bucket `to` (`None`: in no bucket), seen at bucket `x`.
pub open spec fn moved(l: Seq<u64>, x: u64, key: u64, from: Option<u64>, to: Option<u64>) -> Seq<
    u64,
> {
    match (from, to) {
        (Some(a), Some(b)) => if a == b {
            if x == b {
                with_key(l, key)
            } else {
                l
            }
        } else if x == a {
            without_key(l, key)
        } else if x == b {
            with_key(l, key)
        } else {
            l
        },
        (Some(a), None) => if x == a {
            without_key(l, key)
        } else {
            l
        },
        (None, Some(b)) => if x == b {
            with_key(l, key)
        } else {
            l
        },
        (None, None) => l,
    }
}

/// The identities before and after a change: a new record has none before, a
/// deletion none after.
pub open spec fn identities(u: Update<Option<u64>>) -> (Option<u64>, Option<u64>) {
    match u {
        Update::Put { old: o, new: n } => (
            match o {
                Some(i) => i,
                None => None,
            },
            n,
        ),
        Update::Del { old: o } => (o, None),
    }
}

/// Whether source key `k` holds a record (not a tombstone) in table `m` of
/// key width `w`.
pub open spec fn holds_record(m: Map<Seq<u8>, SlotModel>, w: KeyWidth, k: u64) -> bool {
    k <= w.max_key() && m.contains_key(key_bytes(w, k)) && m[key_bytes(w, k)] is Some
}

/// The keys of `l` that hold a record, in order.
pub open spec fn present(l: Seq<u64>, m: Map<Seq<u8>, SlotModel>, w: KeyWidth) -> Seq<u64>
    decreases l.len(),
{
    if l.len() == 0 {
        Seq::empty()
    } else if holds_record(m, w, l.last()) {
        present(l.drop_last(), m, w).push(l.last())
    } else {
        present(l.drop_last(), m, w)
    }
}

/// Where each source key belongs: the bucket its record's identity names.
pub type Placement = Map<u64, u64>;

pub struct Index {
    buckets: Buckets,
}

impl Index {
    pub closed spec fn wf(&self) -> bool {
        self.buckets.wf()
    }

    /// The keys of bucket `id`, in the order they joined it.
    pub closed spec fn list_of(&self, id: u64) -> Seq<u64> {
        self.buckets.list_of(id)
    }

    /// Each bucket lists, once each, exactly the keys that `src` places in
    /// it.
    pub open spec fn consistent(&self, src: Placement) -> bool {
        forall|x: u64|
            #![trigger self.list_of(x)]
            self.list_of(x).no_duplicates() && forall|k: u64| #[trigger]
                self.list_of(x).contains(k) <==> (src.contains_key(k) && src[k] == x)
    }

    /// An index with every bucket empty.
    pub fn new() -> (r: Index)
        ensures
            r.wf(),
            forall|x: u64| r.list_of(x) == Seq::<u64>::empty(),
            r.consistent(Map::empty()),
    {
        let r = Index { buckets: Buckets::new() };
        proof {
            assert forall|x: u64| #![trigger r.list_of(x)] r.list_of(x).no_duplicates() && forall|k: u64| #[trigger]
                r.list_of(x).contains(k) <==> (Map::<u64, u64>::empty().contains_key(k)
                    && Map::<u64, u64>::empty()[k] == x) by {
                assert(r.list_of(x) == Seq::<u64>::empty());
            }
        }
        r
    }

    /// Moves source key `key` from bucket `from` to bucket `to`: it leaves
    /// `from` and joins the end of `to` when they differ, and stays where it
    /// is (joining if missing) when they agree.
    pub fn apply(&mut self, key: u64, from: Option<u64>, to: Option<u64>)
        requires
            old(self).wf(),
        ensures
            final(self).wf(),
            forall|x: u64| #[trigger]
                final(self).list_of(x) == moved(old(self).list_of(x), x, key, from, to),
    {
        match (from, to) {
            (Some(a), Some(b)) => {
                if a == b {
                    self.buckets.add(b, key);
                } else {
                    self.buckets.remove(a, key);
                    self.buckets.add(b, key);
                }
            },
            (Some(a), None) => {
                self.buckets.remove(a, key);
            },
            (None, Some(b)) => {
                self.buckets.add(b, key);
            },
            (None, None) => {},
        }
    }

    /// Applies a source change, given as the identities of the old and new
    /// values.
    pub fn change(&mut self, change: Change<u64, Option<u64>>)
        requires
            old(self).wf(),
        ensures
            final(self).wf(),
            forall|x: u64| #[trigger]
                final(self).list_of(x) == moved(
                    old(self).list_of(x),
                    x,
                    change.key,
                    identities(change.update).0,
                    identities(change.update).1,
                ),
    {
        let (from, to) = match change.update {
            Update::Put { old: o, new: n } => (
                match o {
                    Some(i) => i,
                    None => None,
                },
                n,
            ),
            Update::Del { old: o } => (o, None),
        };
        self.apply(change.key, from, to)
    }

    /// The keys of bucket `id`, in the order they joined it.
    pub fn list(&self, id: u64) -> (r: Vec<u64>)
        requires
            self.wf(),
        ensures
            r@ == self.list_of(id),
    {
        self.buckets.list(id)
    }

    /// The records of bucket `id`, read from the source tree in bucket order;
    /// keys with no record there are skipped.
    pub fn values(&self, source: &Tree, id: u64) -> (r: Vec<(u64, Lookup)>)
        requires
            self.wf(),
            source.wf(),
        ensures
            r@.map_values(|e: (u64, Lookup)| e.0) == present(
                self.list_of(id),
                source.view(),
                source.spec_width(),
            ),
            forall|j: int|
                0 <= j < r@.len() ==> lookup_of(
                    Some(source.view()[key_bytes(source.spec_width(), (#[trigger] r@[j]).0)]),
                    source.current(),
                    r@[j].1,
                ),
    {
        let keys = self.list(id);
        let w = source.width();
        let max = w.max_value();
        let mut out: Vec<(u64, Lookup)> = Vec::new();
        let mut i: usize = 0;
        assert(keys@.take(0) =~= Seq::<u64>::empty());
        while i < keys.len()
            invariant
                source.wf(),
                w == source.spec_width(),
                max == w.max_key(),
                i <= keys@.len(),
                out@.map_values(|e: (u64, Lookup)| e.0) == present(
                    keys@.take(i as int),
                    source.view(),
                    w,
                ),
                forall|j: int|
                    0 <= j < out@.len() ==> lookup_of(
                        Some(source.view()[key_bytes(w, (#[trigger] out@[j]).0)]),
                        source.current(),
                        out@[j].1,
                    ),
            decreases keys.len() - i,
        {
            let k = keys[i];
            let ghost before = out@;
            assert(keys@.take(i + 1).drop_last() =~= keys@.take(i as int));
            assert(keys@.take(i + 1).last() == k);
            if k <= max {
                let l = source.get(k);
                match l {
                    Lookup::Current(_) | Lookup::Stale { .. } => {
                        out.push((k, l));
                        assert(out@.map_values(|e: (u64, Lookup)| e.0) =~= before.map_values(
                            |e: (u64, Lookup)| e.0,
                        ).push(k));
                    },
                    _ => {},
                }
            }
            i = i + 1;
        }
        assert(keys@.take(i as int) =~= keys@);
        out
    }

    /// The key at position `i` of bucket `id`.
    pub fn key_at(&self, id: u64, i: usize) -> (r: Option<u64>)
        requires
            self.wf(),
        ensures
            i < self.list_of(id).len() ==> r == Some(self.list_of(id)[i as int]),
            i >= self.list_of(id).len() ==> r is None,
    {
        self.buckets.key_at(id, i)
    }
}

/// Where a change leaves the source keys.
pub open spec fn placed(src: Placement, key: u64, to: Option<u64>) -> Placement {
    match to {
        Some(b) => src.insert(key, b),
        None => src.remove(key),
    }
}

/// An index that lists each bucket's keys stays exact through any change
/// whose old identity is where the key stood: afterwards every bucket lists,
/// once each, exactly the keys whose records name it.
pub proof fn lemma_change_keeps_exact(
    before: &Index,
    after: &Index,
    src: Placement,
    key: u64,
    from: Option<u64>,
    to: Option<u64>,
)
    requires
        before.consistent(src),
        from == (if src.contains_key(key) {
            Some(src[key])
        } else {
            None::<u64>
        }),
        forall|x: u64| #[trigger] after.list_of(x) == moved(before.list_of(x), x, key, from, to),
    ensures
        after.consistent(placed(src, key, to)),
{
    let dst = placed(src, key, to);
    assert forall|x: u64| #![trigger after.list_of(x)] after.list_of(x).no_duplicates() && forall|k: u64| #[trigger]
        after.list_of(x).contains(k) <==> (dst.contains_key(k) && dst[k] == x) by {
        let l = before.list_of(x);
        assert(l.no_duplicates());
        lemma_with_key(l, key);
        lemma_without_key(l, key);
        assert forall|k: u64| #[trigger] after.list_of(x).contains(k) <==> (dst.contains_key(k) && dst[k] == x) by {
            assert(l.contains(k) <==> (src.contains_key(k) && src[k] == x));
            if k == key {
                match to {
                    Some(b) => {
                        assert(dst.contains_key(k) && dst[k] == b);
                    },
                    None => {
                        assert(!dst.contains_key(k));
                    },
                }
            } else {
                assert(dst.contains_key(k) == src.contains_key(k));
                if src.contains_key(k) {
                    assert(dst[k] == src[k]);
                }
            }
        }
    }
}

/// An exact index lists each bucket as a multiset of keys: every key whose
/// record names the bucket once, and no other key.
pub proof fn lemma_bucket_multiset(idx: &Index, src: Placement, id: u64)
    requires
        idx.consistent(src),
    ensures
        forall|k: u64|
            #[trigger] idx.list_of(id).to_multiset().count(k) == if src.contains_key(k) && src[k]
                == id {
                1nat
            } else {
                0nat
            },
{
    let l = idx.list_of(id);
    assert(l.no_duplicates());
    l.lemma_multiset_has_no_duplicates();
    l.to_multiset_ensures();
    assert forall|k: u64| #[trigger] l.to_multiset().count(k) == if src.contains_key(k) && src[k]
        == id {
        1nat
    } else {
        0nat
    } by {
        assert(l.contains(k) <==> (src.contains_key(k) && src[k] == id));
        assert(l.contains(k) <==> l.to_multiset().count(k) > 0);
    }
}

} // verus!
