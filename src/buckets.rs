//! The state of a derived view: for each bucket, the ordered list of source
//! keys whose records fall in it, each key once.
use vstd::prelude::*;

verus! {

/// `l` with `k` appended, unless it holds `k` already.
pub open spec fn with_key(l: Seq<u64>, k: u64) -> Seq<u64> {
    if l.contains(k) {
        l
    } else {
        l.push(k)
    }
}

/// `l` with `k` taken out, if it holds `k`.
pub open spec fn without_key(l: Seq<u64>, k: u64) -> Seq<u64> {
    if l.contains(k) {
        l.remove(l.index_of(k))
    } else {
        l
    }
}

pub proof fn lemma_with_key(l: Seq<u64>, k: u64)
    requires
        l.no_duplicates(),
    ensures
        with_key(l, k).no_duplicates(),
        forall|x: u64| with_key(l, k).contains(x) <==> (l.contains(x) || x == k),
{
    if !l.contains(k) {
        let r = l.push(k);
        assert forall|x: u64| r.contains(x) <==> (l.contains(x) || x == k) by {
            if l.contains(x) {
                let i = l.index_of(x);
                assert(r[i] == x);
            }
            if x == k {
                assert(r[l.len() as int] == x);
            }
            if r.contains(x) && x != k {
                let i = r.index_of(x);
                assert(i < l.len());
                assert(l[i] == x);
            }
        }
    }
}

pub proof fn lemma_without_key(l: Seq<u64>, k: u64)
    requires
        l.no_duplicates(),
    ensures
        without_key(l, k).no_duplicates(),
        forall|x: u64| without_key(l, k).contains(x) <==> (l.contains(x) && x != k),
{
    if l.contains(k) {
        let p = l.index_of(k);
        let r = l.remove(p);
        assert forall|x: u64| r.contains(x) <==> (l.contains(x) && x != k) by {
            if r.contains(x) {
                let i = r.index_of(x);
                if i < p {
                    assert(l[i] == x);
                } else {
                    assert(l[i + 1] == x);
                    assert(i + 1 != p);
                }
            }
            if l.contains(x) && x != k {
                let i = l.index_of(x);
                if i < p {
                    assert(r[i] == x);
                } else {
                    assert(i != p);
                    assert(r[i - 1] == x);
                }
            }
        }
    }
}

fn position(l: &Vec<u64>, k: u64) -> (r: Option<usize>)
    requires
        l@.no_duplicates(),
    ensures
        r matches Some(i) ==> i < l@.len() && l@[i as int] == k && l@.index_of(k) == i,
        r is None ==> !l@.contains(k),
{
    let mut i: usize = 0;
    while i < l.len()
        invariant
            l@.no_duplicates(),
            i <= l@.len(),
            forall|j: int| 0 <= j < i ==> l@[j] != k,
        decreases l.len() - i,
    {
        if l[i] == k {
            proof {
                assert(l@.contains(k));
                let j = l@.index_of(k);
                assert(l@[j] == k);
                assert(l@[i as int] == k);
                if j != i {
                    assert(l@[j] != l@[i as int]);
                }
            }
            return Some(i);
        }
        i = i + 1;
    }
    None
}

fn copy_keys(l: &Vec<u64>) -> (r: Vec<u64>)
    ensures
        r@ == l@,
{
    let mut r: Vec<u64> = Vec::new();
    let mut i: usize = 0;
    while i < l.len()
        invariant
            i <= l@.len(),
            r@ == l@.subrange(0, i as int),
        decreases l.len() - i,
    {
        r.push(l[i]);
        i = i + 1;
    }
    assert(r@ =~= l@);
    r
}

pub struct Buckets {
    ids: Vec<u64>,
    lists: Vec<Vec<u64>>,
}

impl Buckets {
    pub closed spec fn wf(&self) -> bool {
        &&& self.ids@.len() == self.lists@.len()
        &&& self.ids@.no_duplicates()
        &&& forall|i: int| 0 <= i < self.lists@.len() ==> (#[trigger] self.lists@[i])@.no_duplicates()
    }

    /// The keys of bucket `id`, in the order they joined it; empty for a
    /// bucket never written.
    pub closed spec fn list_of(&self, id: u64) -> Seq<u64> {
        if self.ids@.contains(id) {
            self.lists@[self.ids@.index_of(id)]@
        } else {
            Seq::empty()
        }
    }

    pub proof fn lemma_no_duplicates(&self, id: u64)
        requires
            self.wf(),
        ensures
            self.list_of(id).no_duplicates(),
    {
        if self.ids@.contains(id) {
            let i = self.ids@.index_of(id);
            assert(self.lists@[i]@.no_duplicates());
        }
    }

    pub fn new() -> (r: Buckets)
        ensures
            r.wf(),
            forall|id: u64| r.list_of(id) == Seq::<u64>::empty(),
    {
        Buckets { ids: Vec::new(), lists: Vec::new() }
    }

    fn find(&self, id: u64) -> (r: Option<usize>)
        requires
            self.wf(),
        ensures
            r matches Some(i) ==> i < self.ids@.len() && self.ids@[i as int] == id
                && self.ids@.index_of(id) == i,
            r is None ==> !self.ids@.contains(id),
    {
        position(&self.ids, id)
    }

    /// The keys of bucket `id`.
    pub fn list(&self, id: u64) -> (r: Vec<u64>)
        requires
            self.wf(),
        ensures
            r@ == self.list_of(id),
    {
        match self.find(id) {
            Some(i) => copy_keys(&self.lists[i]),
            None => Vec::new(),
        }
    }

    /// The key at position `i` of bucket `id`.
    pub fn key_at(&self, id: u64, i: usize) -> (r: Option<u64>)
        requires
            self.wf(),
        ensures
            i < self.list_of(id).len() ==> r == Some(self.list_of(id)[i as int]),
            i >= self.list_of(id).len() ==> r is None,
    {
        match self.find(id) {
            Some(b) => if i < self.lists[b].len() {
                Some(self.lists[b][i])
            } else {
                None
            },
            None => None,
        }
    }

    fn set_list(&mut self, id: u64, l: Vec<u64>)
        requires
            old(self).wf(),
            l@.no_duplicates(),
        ensures
            final(self).wf(),
            forall|x: u64| #[trigger]
                final(self).list_of(x) == if x == id {
                    l@
                } else {
                    old(self).list_of(x)
                },
    {
        let ghost before = *self;
        match self.find(id) {
            Some(i) => {
                self.lists.set(i, l);
                proof {
                    assert forall|x: u64| #[trigger]
                        self.list_of(x) == if x == id {
                            l@
                        } else {
                            before.list_of(x)
                        } by {
                        if x != id && self.ids@.contains(x) {
                            assert(self.ids@.index_of(x) != i);
                        }
                    }
                }
            },
            None => {
                let ghost n = self.ids@.len();
                self.ids.push(id);
                self.lists.push(l);
                proof {
                    assert(self.ids@[n as int] == id);
                    assert forall|x: u64| #[trigger]
                        self.list_of(x) == if x == id {
                            l@
                        } else {
                            before.list_of(x)
                        } by {
                        if x == id {
                            assert(self.ids@.contains(id));
                            let j = self.ids@.index_of(id);
                            if j != n {
                                assert(before.ids@[j] == id);
                            }
                        } else {
                            if self.ids@.contains(x) {
                                let j = self.ids@.index_of(x);
                                assert(j != n);
                                assert(before.ids@[j] == x);
                                assert(before.ids@.contains(x));
                                let j0 = before.ids@.index_of(x);
                                assert(self.ids@[j0] == x);
                            }
                            if before.ids@.contains(x) {
                                let j0 = before.ids@.index_of(x);
                                assert(self.ids@[j0] == x);
                                assert(self.ids@.contains(x));
                            }
                        }
                    }
                }
            },
        }
    }

    /// Appends `key` to bucket `id` unless it is there already.
    pub fn add(&mut self, id: u64, key: u64)
        requires
            old(self).wf(),
        ensures
            final(self).wf(),
            forall|x: u64| #[trigger]
                final(self).list_of(x) == if x == id {
                    with_key(old(self).list_of(id), key)
                } else {
                    old(self).list_of(x)
                },
    {
        let mut l = self.list(id);
        proof {
            self.lemma_no_duplicates(id);
            lemma_with_key(l@, key);
        }
        match position(&l, key) {
            Some(_) => {},
            None => {
                l.push(key);
            },
        }
        self.set_list(id, l);
    }

    /// Takes `key` out of bucket `id`, if it is there.
    pub fn remove(&mut self, id: u64, key: u64)
        requires
            old(self).wf(),
        ensures
            final(self).wf(),
            forall|x: u64| #[trigger]
                final(self).list_of(x) == if x == id {
                    without_key(old(self).list_of(id), key)
                } else {
                    old(self).list_of(x)
                },
    {
        let mut l = self.list(id);
        proof {
            self.lemma_no_duplicates(id);
            lemma_without_key(l@, key);
        }
        match position(&l, key) {
            Some(i) => {
                l.remove(i);
            },
            None => {},
        }
        self.set_list(id, l);
    }

    /// Whether bucket `id` holds `key`.
    pub fn has(&self, id: u64, key: u64) -> (r: bool)
        requires
            self.wf(),
        ensures
            r == self.list_of(id).contains(key),
    {
        let l = self.list(id);
        proof {
            self.lemma_no_duplicates(id);
        }
        position(&l, key).is_some()
    }
}

} // verus!
