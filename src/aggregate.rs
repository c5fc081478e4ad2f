//! Aggregates: for each bucket, the keys of the source records in it, and the
//! calls of the record's `observe` that each source change makes.
use crate::buckets::{lemma_with_key, lemma_without_key, with_key, without_key, Buckets};
use crate::index::{placed, Placement};
use vstd::prelude::*;

verus! {

/// Which call of `observe` a bucket's record receives.
#[derive(Debug, Clone, Copy, PartialEq, Eq, Structural)]
pub enum Observe {
    /// The key joined the bucket: `observe` of a change with no old value.
    Created,
    /// The key stayed in the bucket: `observe` of a change with both values.
    Updated,
    /// The key left the bucket: `observe` of a deletion of the old value.
    Deleted,
}

/// One call of `observe` on the record of `bucket`.
#[derive(Debug, Clone, Copy, PartialEq, Eq, Structural)]
pub struct Observation {
    pub bucket: u64,
    pub kind: Observe,
}

/// A bucket's keys after source key `key` moved from bucket `from` to
/// bucket `to`, seen at bucket `x`. A key that stays in its bucket is not
/// added there.
pub open spec fn agg_moved(l: Seq<u64>, x: u64, key: u64, from: Option<u64>, to: Option<u64>) -> Seq<
    u64,
> {
    match (from, to) {
        (Some(a), Some(b)) => if a == b {
            l
        } else if x == a {
            without_key(l, key)
        } else if x == b {
            with_key(l, key)
        } else {
            l
        },
        (Some(a), None) => if x == a {
            without_key(l, key)
        } else {
            l
        },
        (None, Some(b)) => if x == b {
            with_key(l, key)
        } else {
            l
        },
        (None, None) => l,
    }
}

pub open spec fn leave(lf: Seq<u64>, a: u64, key: u64) -> Seq<Observation> {
    if lf.contains(key) {
        seq![Observation { bucket: a, kind: Observe::Deleted }]
    } else {
        Seq::empty()
    }
}

pub open spec fn join(lt: Seq<u64>, b: u64, key: u64) -> Seq<Observation> {
    if lt.contains(key) {
        Seq::empty()
    } else {
        seq![Observation { bucket: b, kind: Observe::Created }]
    }
}

/// The calls of `observe` that moving `key` from `from` (whose list is `lf`)
/// to `to` (whose list is `lt`) makes: one per bucket at most, and only where
/// the bucket's membership allows it.
pub open spec fn observations(
    lf: Seq<u64>,
    lt: Seq<u64>,
    key: u64,
    from: Option<u64>,
    to: Option<u64>,
) -> Seq<Observation> {
    match (from, to) {
        (Some(a), Some(b)) => if a == b {
            if lf.contains(key) {
                seq![Observation { bucket: a, kind: Observe::Updated }]
            } else {
                Seq::empty()
            }
        } else {
            leave(lf, a, key) + join(lt, b, key)
        },
        (Some(a), None) => leave(lf, a, key),
        (None, Some(b)) => join(lt, b, key),
        (None, None) => Seq::empty(),
    }
}

pub struct AggregateTree {
    buckets: Buckets,
}

impl AggregateTree {
    pub closed spec fn wf(&self) -> bool {
        self.buckets.wf()
    }

    /// The keys of bucket `id`, in the order they joined it.
    pub closed spec fn list_of(&self, id: u64) -> Seq<u64> {
        self.buckets.list_of(id)
    }

    /// Each bucket lists, once each, exactly the keys that `src` places in
    /// it.
    pub open spec fn consistent(&self, src: Placement) -> bool {
        forall|x: u64|
            #![trigger self.list_of(x)]
            self.list_of(x).no_duplicates() && forall|k: u64| #[trigger]
                self.list_of(x).contains(k) <==> (src.contains_key(k) && src[k] == x)
    }

    /// An aggregate with every bucket empty.
    pub fn new() -> (r: AggregateTree)
        ensures
            r.wf(),
            forall|x: u64| r.list_of(x) == Seq::<u64>::empty(),
            r.consistent(Map::empty()),
    {
        let r = AggregateTree { buckets: Buckets::new() };
        proof {
            assert forall|x: u64| #![trigger r.list_of(x)] r.list_of(x).no_duplicates() && forall|k: u64| #[trigger]
                r.list_of(x).contains(k) <==> (Map::<u64, u64>::empty().contains_key(k)
                    && Map::<u64, u64>::empty()[k] == x) by {
                assert(r.list_of(x) == Seq::<u64>::empty());
            }
        }
        r
    }

    /// Routes a change of source key `key` from bucket `from` to bucket `to`
    /// and returns the calls of `observe` it makes, in order: a key that
    /// stays in its bucket updates that bucket's record; one that moves is
    /// deleted from the old bucket and created in the new one.
    pub fn apply(&mut self, key: u64, from: Option<u64>, to: Option<u64>) -> (r: Vec<Observation>)
        requires
            old(self).wf(),
        ensures
            final(self).wf(),
            forall|x: u64| #[trigger]
                final(self).list_of(x) == agg_moved(old(self).list_of(x), x, key, from, to),
            r@ == observations(
                match from {
                    Some(a) => old(self).list_of(a),
                    None => Seq::empty(),
                },
                match to {
                    Some(b) => old(self).list_of(b),
                    None => Seq::empty(),
                },
                key,
                from,
                to,
            ),
    {
        let mut out: Vec<Observation> = Vec::new();
        match (from, to) {
            (Some(a), Some(b)) => {
                if a == b {
                    if self.buckets.has(a, key) {
                        out.push(Observation { bucket: a, kind: Observe::Updated });
                    }
                } else {
                    if self.buckets.has(a, key) {
                        self.buckets.remove(a, key);
                        out.push(Observation { bucket: a, kind: Observe::Deleted });
                    }
                    if !self.buckets.has(b, key) {
                        self.buckets.add(b, key);
                        out.push(Observation { bucket: b, kind: Observe::Created });
                    }
                }
            },
            (Some(a), None) => {
                if self.buckets.has(a, key) {
                    self.buckets.remove(a, key);
                    out.push(Observation { bucket: a, kind: Observe::Deleted });
                }
            },
            (None, Some(b)) => {
                if !self.buckets.has(b, key) {
                    self.buckets.add(b, key);
                    out.push(Observation { bucket: b, kind: Observe::Created });
                }
            },
            (None, None) => {},
        }
        proof {
            assert(out@ =~= observations(
                match from {
                    Some(a) => old(self).list_of(a),
                    None => Seq::empty(),
                },
                match to {
                    Some(b) => old(self).list_of(b),
                    None => Seq::empty(),
                },
                key,
                from,
                to,
            ));
        }
        out
    }

    /// The keys of bucket `id`, in the order they joined it.
    pub fn list(&self, id: u64) -> (r: Vec<u64>)
        requires
            self.wf(),
        ensures
            r@ == self.list_of(id),
    {
        self.buckets.list(id)
    }
}

/// An aggregate that tracks each bucket's members exactly stays exact through
/// any change whose old identity is where the key stood, and the calls of
/// `observe` follow membership: an update when the key stays, a deletion
/// from the bucket it leaves and a creation in the bucket it joins. So each
/// record sees every source change of its bucket exactly once, whether the
/// change arrives live or from the log.
pub proof fn lemma_aggregate_exact(
    before: &AggregateTree,
    after: &AggregateTree,
    src: Placement,
    key: u64,
    from: Option<u64>,
    to: Option<u64>,
)
    requires
        before.consistent(src),
        from == (if src.contains_key(key) {
            Some(src[key])
        } else {
            None::<u64>
        }),
        forall|x: u64| #[trigger] after.list_of(x) == agg_moved(before.list_of(x), x, key, from, to),
    ensures
        after.consistent(placed(src, key, to)),
        observations(
            match from {
                Some(a) => before.list_of(a),
                None => Seq::empty(),
            },
            match to {
                Some(b) => before.list_of(b),
                None => Seq::empty(),
            },
            key,
            from,
            to,
        ) == match (from, to) {
            (Some(a), Some(b)) => if a == b {
                seq![Observation { bucket: a, kind: Observe::Updated }]
            } else {
                seq![
                    Observation { bucket: a, kind: Observe::Deleted },
                    Observation { bucket: b, kind: Observe::Created },
                ]
            },
            (Some(a), None) => seq![Observation { bucket: a, kind: Observe::Deleted }],
            (None, Some(b)) => seq![Observation { bucket: b, kind: Observe::Created }],
            (None, None) => Seq::<Observation>::empty(),
        },
{
    let dst = placed(src, key, to);
    match from {
        Some(a) => {
            assert(before.list_of(a).contains(key));
        },
        None => {},
    }
    match to {
        Some(b) => {
            if from != Some(b) {
                assert(!before.list_of(b).contains(key));
            }
        },
        None => {},
    }
    assert forall|x: u64| #![trigger after.list_of(x)] after.list_of(x).no_duplicates() && forall|k: u64| #[trigger]
        after.list_of(x).contains(k) <==> (dst.contains_key(k) && dst[k] == x) by {
        let l = before.list_of(x);
        assert(l.no_duplicates());
        lemma_with_key(l, key);
        lemma_without_key(l, key);
        assert forall|k: u64| #[trigger] after.list_of(x).contains(k) <==> (dst.contains_key(k) && dst[k] == x) by {
            assert(l.contains(k) <==> (src.contains_key(k) && src[k] == x));
            if k == key {
                match to {
                    Some(b) => {
                        assert(dst.contains_key(k) && dst[k] == b);
                    },
                    None => {
                        assert(!dst.contains_key(k));
                    },
                }
            } else {
                assert(dst.contains_key(k) == src.contains_key(k));
                if src.contains_key(k) {
                    assert(dst[k] == src[k]);
                }
            }
        }
    }
    match (from, to) {
        (Some(a), Some(b)) => if a != b {
            assert(leave(before.list_of(a), a, key) + join(before.list_of(b), b, key) =~= seq![
                Observation { bucket: a, kind: Observe::Deleted },
                Observation { bucket: b, kind: Observe::Created },
            ]);
        },
        _ => {},
    }
}

} // verus!
