//! The in-memory file system: directories and files under byte-string paths,
//! files written through a bounded buffer and read from their flushed
//! contents.
use crate::codec::bytes_eq;
use crate::entry::append_all;
use vstd::prelude::*;
use vstd::string::StringSliceAdditionalSpecFns;

verus! {

/// How many bytes a file's write buffer holds before it must be flushed.
pub const MAX_BUFFER_SIZE: usize = 4096;

/// Why a file operation failed.
#[derive(Debug, Clone, Copy, PartialEq, Eq, Structural)]
pub enum FsError {
    /// The options ask for something impossible: truncating without write
    /// access, opening with neither read nor write access, or creating a file
    /// without write access.
    InvalidInput,
    /// The path, or the directory that should hold it, does not exist.
    NotFound,
    /// The path is a directory, or a file where a new one was required.
    AlreadyExists,
    /// The handle was opened without the access that the operation needs.
    PermissionDenied,
}

/// How to open a file; every flag starts unset.
#[derive(Debug, Clone)]
pub struct OpenFileOptions {
    pub read: bool,
    pub write: bool,
    pub truncate: bool,
    pub create: bool,
    pub create_new: bool,
    pub append: bool,
    pub path: Vec<u8>,
}

impl OpenFileOptions {
    /// Options for `path` with every flag unset.
    pub fn new(path: &str) -> (r: OpenFileOptions)
        ensures
            r.path@ == path.spec_bytes(),
            !r.read && !r.write && !r.truncate && !r.create && !r.create_new && !r.append,
    {
        let mut p: Vec<u8> = Vec::new();
        append_all(&mut p, path.as_bytes());
        OpenFileOptions {
            read: false,
            write: false,
            truncate: false,
            create: false,
            create_new: false,
            append: false,
            path: p,
        }
    }

    pub fn read(self) -> (r: OpenFileOptions)
        ensures
            r == (OpenFileOptions { read: true, ..self }),
    {
        OpenFileOptions { read: true, ..self }
    }

    pub fn write(self) -> (r: OpenFileOptions)
        ensures
            r == (OpenFileOptions { write: true, ..self }),
    {
        OpenFileOptions { write: true, ..self }
    }

    pub fn truncate(self) -> (r: OpenFileOptions)
        ensures
            r == (OpenFileOptions { truncate: true, ..self }),
    {
        OpenFileOptions { truncate: true, ..self }
    }

    pub fn create_new(self) -> (r: OpenFileOptions)
        ensures
            r == (OpenFileOptions { create_new: true, ..self }),
    {
        OpenFileOptions { create_new: true, ..self }
    }

    pub fn create(self) -> (r: OpenFileOptions)
        ensures
            r == (OpenFileOptions { create: true, ..self }),
    {
        OpenFileOptions { create: true, ..self }
    }

    pub fn append(self) -> (r: OpenFileOptions)
        ensures
            r == (OpenFileOptions { append: true, ..self }),
    {
        OpenFileOptions { append: true, ..self }
    }

    /// The same flags for another path.
    pub fn with_path(self, path: &str) -> (r: OpenFileOptions)
        ensures
            r.path@ == path.spec_bytes(),
            r.read == self.read && r.write == self.write && r.truncate == self.truncate
                && r.create == self.create && r.create_new == self.create_new && r.append
                == self.append,
    {
        let mut p: Vec<u8> = Vec::new();
        append_all(&mut p, path.as_bytes());
        OpenFileOptions { path: p, ..self }
    }
}

/// A file's bytes: the flushed contents and the write buffer.
#[derive(Debug)]
pub struct Disk {
    buffer: Vec<u8>,
    contents: Vec<u8>,
}

impl Disk {
    pub closed spec fn spec_contents(&self) -> Seq<u8> {
        self.contents@
    }

    pub closed spec fn spec_buffer(&self) -> Seq<u8> {
        self.buffer@
    }

    pub closed spec fn wf(&self) -> bool {
        &&& self.buffer@.len() <= MAX_BUFFER_SIZE
        &&& self.contents@.len() <= usize::MAX
    }

    pub proof fn lemma_wf(&self)
        requires
            self.wf(),
        ensures
            self.spec_contents().len() <= usize::MAX,
    {
    }

    pub fn new() -> (r: Disk)
        ensures
            r.wf(),
            r.spec_contents() == Seq::<u8>::empty(),
            r.spec_buffer() == Seq::<u8>::empty(),
    {
        Disk { buffer: Vec::new(), contents: Vec::new() }
    }

    /// The flushed contents.
    pub fn as_reader(&self) -> (r: &Vec<u8>)
        ensures
            r@ == self.spec_contents(),
    {
        &self.contents
    }

    /// Whether nothing was flushed.
    pub fn is_empty(&self) -> (r: bool)
        ensures
            r == (self.spec_contents().len() == 0),
    {
        self.contents.len() == 0
    }

    /// Clears the contents and the buffer.
    pub fn truncate(&mut self)
        ensures
            final(self).wf(),
            final(self).spec_contents() == Seq::<u8>::empty(),
            final(self).spec_buffer() == Seq::<u8>::empty(),
    {
        self.contents = Vec::new();
        self.buffer = Vec::new();
    }

    /// Moves the buffer to the end of the contents.
    pub fn flush(&mut self)
        ensures
            final(self).wf(),
            final(self).spec_contents() == old(self).spec_contents() + old(self).spec_buffer(),
            final(self).spec_buffer() == Seq::<u8>::empty(),
    {
        append_all(&mut self.contents, self.buffer.as_slice());
        let _n = self.contents.len();
        self.buffer = Vec::new();
    }

    /// Buffers as much of `buf` as fits, flushing a full buffer first;
    /// returns how many bytes were taken.
    pub fn write(&mut self, buf: &[u8]) -> (r: usize)
        requires
            old(self).wf(),
        ensures
            final(self).wf(),
            ({
                let full = old(self).spec_buffer().len() == MAX_BUFFER_SIZE;
                let room: int = if full {
                    MAX_BUFFER_SIZE as int
                } else {
                    MAX_BUFFER_SIZE - old(self).spec_buffer().len()
                };
                let n: int = if buf@.len() > room {
                    room
                } else {
                    buf@.len() as int
                };
                &&& r == n
                &&& final(self).spec_contents() == if full {
                    old(self).spec_contents() + old(self).spec_buffer()
                } else {
                    old(self).spec_contents()
                }
                &&& final(self).spec_buffer() == (if full {
                    Seq::<u8>::empty()
                } else {
                    old(self).spec_buffer()
                }) + buf@.subrange(0, n)
            }),
    {
        if self.buffer.len() == MAX_BUFFER_SIZE {
            self.flush();
        }
        let room = MAX_BUFFER_SIZE - self.buffer.len();
        let n = if buf.len() > room {
            room
        } else {
            buf.len()
        };
        let mut i: usize = 0;
        let ghost b0 = self.buffer@;
        let ghost c0 = self.contents@;
        while i < n
            invariant
                self.contents@ == c0,
                n <= buf@.len(),
                b0.len() + n <= MAX_BUFFER_SIZE,
                i <= n,
                self.buffer@ == b0 + buf@.subrange(0, i as int),
            decreases n - i,
        {
            self.buffer.push(buf[i]);
            i = i + 1;
            assert(self.buffer@ =~= b0 + buf@.subrange(0, i as int));
        }
        n
    }
}

/// A file of the file system.
#[derive(Debug)]
pub struct FNode {
    inner: Disk,
}

impl FNode {
    pub closed spec fn spec_contents(&self) -> Seq<u8> {
        self.inner.spec_contents()
    }

    pub closed spec fn spec_buffer(&self) -> Seq<u8> {
        self.inner.spec_buffer()
    }

    pub closed spec fn wf(&self) -> bool {
        self.inner.wf()
    }

    pub proof fn lemma_wf(&self)
        requires
            self.wf(),
        ensures
            self.spec_contents().len() <= usize::MAX,
    {
        self.inner.lemma_wf();
    }

    /// An empty file.
    pub fn new() -> (r: FNode)
        ensures
            r.wf(),
            r.spec_contents() == Seq::<u8>::empty(),
            r.spec_buffer() == Seq::<u8>::empty(),
    {
        FNode { inner: Disk::new() }
    }

    /// Empties the file.
    pub fn truncate(&mut self)
        ensures
            final(self).wf(),
            final(self).spec_contents() == Seq::<u8>::empty(),
            final(self).spec_buffer() == Seq::<u8>::empty(),
    {
        self.inner.truncate();
    }

    /// The position just past the flushed contents.
    pub fn end_of_file_pointer(&self) -> (r: usize)
        ensures
            r == self.spec_contents().len(),
    {
        self.inner.as_reader().len()
    }

    /// The flushed contents.
    pub fn as_reader(&self) -> (r: &Vec<u8>)
        ensures
            r@ == self.spec_contents(),
    {
        self.inner.as_reader()
    }

    /// Moves the buffer to the end of the contents.
    pub fn flush(&mut self)
        ensures
            final(self).wf(),
            final(self).spec_contents() == old(self).spec_contents() + old(self).spec_buffer(),
            final(self).spec_buffer() == Seq::<u8>::empty(),
    {
        self.inner.flush();
    }

    /// Buffers as much of `buf` as fits; see `Disk::write`.
    pub fn write(&mut self, buf: &[u8]) -> (r: usize)
        requires
            old(self).wf(),
        ensures
            final(self).wf(),
            ({
                let full = old(self).spec_buffer().len() == MAX_BUFFER_SIZE;
                let room: int = if full {
                    MAX_BUFFER_SIZE as int
                } else {
                    MAX_BUFFER_SIZE - old(self).spec_buffer().len()
                };
                let n: int = if buf@.len() > room {
                    room
                } else {
                    buf@.len() as int
                };
                &&& r == n
                &&& final(self).spec_contents() == if full {
                    old(self).spec_contents() + old(self).spec_buffer()
                } else {
                    old(self).spec_contents()
                }
                &&& final(self).spec_buffer() == (if full {
                    Seq::<u8>::empty()
                } else {
                    old(self).spec_buffer()
                }) + buf@.subrange(0, n)
            }),
    {
        self.inner.write(buf)
    }
}

/// An entry of the file system.
#[derive(Debug)]
pub enum Ident {
    Dir,
    File(FNode),
}

impl Ident {
    /// Whether the entry is a directory.
    pub fn is_dir(&self) -> (r: bool)
        ensures
            r == (self is Dir),
    {
        match self {
            Ident::Dir => true,
            Ident::File(_) => false,
        }
    }
}

/// A handle on an open file: the file's index, the read position and the
/// access it was opened with.
#[derive(Debug)]
pub struct DbFile {
    pub node: usize,
    pub pointer: usize,
    pub read: bool,
    pub write: bool,
}

/// `p` with `q` appended as a path: `q` itself when it is absolute.
pub open spec fn join_path(p: Seq<u8>, q: Seq<u8>) -> Seq<u8> {
    if q.len() > 0 && q[0] == 0x2fu8 {
        q
    } else if p.len() > 0 && p.last() == 0x2fu8 {
        p + q
    } else {
        p + seq![0x2fu8] + q
    }
}

/// The directory that holds path `p`: everything before its last `/` (the
/// root when that is the first byte); `None` for the root and the empty
/// path, the empty path for a bare name.
pub open spec fn parent_path(p: Seq<u8>) -> Option<Seq<u8>> {
    if p.len() == 0 || p == seq![0x2fu8] {
        None
    } else if exists|i: int| 0 <= i < p.len() && p[i] == 0x2fu8 {
        let i = choose|i: int|
            0 <= i < p.len() && p[i] == 0x2fu8 && forall|j: int| i < j < p.len() ==> p[j] != 0x2fu8;
        if i == 0 {
            Some(seq![0x2fu8])
        } else {
            Some(p.subrange(0, i))
        }
    } else {
        Some(Seq::empty())
    }
}

/// Joins two paths.
pub fn join(p: &[u8], q: &[u8]) -> (r: Vec<u8>)
    ensures
        r@ == join_path(p@, q@),
{
    let mut r: Vec<u8> = Vec::new();
    if q.len() > 0 && q[0] == 0x2fu8 {
        append_all(&mut r, q);
    } else if p.len() > 0 && p[p.len() - 1] == 0x2fu8 {
        append_all(&mut r, p);
        append_all(&mut r, q);
    } else {
        append_all(&mut r, p);
        r.push(0x2fu8);
        append_all(&mut r, q);
    }
    r
}

/// The directory that holds a path.
pub fn parent(p: &[u8]) -> (r: Option<Vec<u8>>)
    ensures
        match r {
            Some(v) => parent_path(p@) == Some(v@),
            None => parent_path(p@) is None,
        },
{
    if p.len() == 0 || (p.len() == 1 && p[0] == 0x2fu8) {
        proof {
            if p@.len() == 1 {
                assert(p@ =~= seq![0x2fu8]);
            }
        }
        return None;
    }
    proof {
        if p@ == seq![0x2fu8] {
            assert(p@.len() == 1);
            assert(p@[0] == 0x2fu8);
            assert(false);
        }
        assert(p@ != seq![0x2fu8]);
    }
    let mut i: usize = p.len();
    while i > 0
        invariant
            p@ != seq![0x2fu8],
            p@.len() > 0,
            i <= p@.len(),
            forall|j: int| i <= j < p@.len() ==> p@[j] != 0x2fu8,
        decreases i,
    {
        if p[i - 1] == 0x2fu8 {
            let k = i - 1;
            proof {
                assert(p@[k as int] == 0x2fu8);
                assert(forall|j: int| k < j < p@.len() ==> p@[j] != 0x2fu8);
                assert(exists|c: int|
                    0 <= c < p@.len() && p@[c] == 0x2fu8 && forall|j: int|
                        c < j < p@.len() ==> p@[j] != 0x2fu8);
                let c = choose|c: int|
                    0 <= c < p@.len() && p@[c] == 0x2fu8 && forall|j: int|
                        c < j < p@.len() ==> p@[j] != 0x2fu8;
                if c < k {
                    assert(p@[k as int] != 0x2fu8);
                }
                if c > k {
                    assert(p@[c] != 0x2fu8);
                }
                assert(c == k);
            }
            proof {
                assert(exists|x: int| 0 <= x < p@.len() && p@[x] == 0x2fu8);
            }
            if k == 0 {
                let v = vec![0x2fu8];
                assert(v@ =~= seq![0x2fu8]);
                assert(parent_path(p@) == Some(v@));
                return Some(v);
            }
            let mut v: Vec<u8> = Vec::new();
            let mut j: usize = 0;
            while j < k
                invariant
                    k < p@.len(),
                    j <= k,
                    v@ == p@.subrange(0, j as int),
                decreases k - j,
            {
                v.push(p[j]);
                j = j + 1;
                assert(v@ =~= p@.subrange(0, j as int));
            }
            assert(parent_path(p@) == Some(v@));
            return Some(v);
        }
        i = i - 1;
    }
    proof {
        assert(!exists|x: int| 0 <= x < p@.len() && p@[x] == 0x2fu8);
        assert(parent_path(p@) == Some(Seq::<u8>::empty()));
    }
    let v: Vec<u8> = Vec::new();
    assert(v@ =~= Seq::<u8>::empty());
    Some(v)
}

/// What making a directory at `path` does to a file system `f0`, leaving
/// `f1`: a directory there already is kept, a file there is an error, and a
/// new directory is added as the next entry with every other entry left as
/// it was.
pub open spec fn create_dir_outcome(
    f0: InMemoryFs,
    f1: InMemoryFs,
    path: Seq<u8>,
    r: Result<(), FsError>,
) -> bool {
    match f0.index_of(path) {
        Some(i) => if f0.is_dir_at(i) {
            r is Ok && f1 == f0
        } else {
            r == Err::<(), FsError>(FsError::AlreadyExists) && f1 == f0
        },
        None => {
            &&& r is Ok
            &&& f1.count() == f0.count() + 1
            &&& f1.index_of(path) == Some(f0.count() as int)
            &&& f1.is_dir_at(f0.count() as int)
            &&& forall|q: Seq<u8>| q != path ==> f1.index_of(q) == f0.index_of(q)
            &&& forall|i: int| 0 <= i < f0.count() ==> f1.node_at(i) == f0.node_at(i)
        },
    }
}

/// What opening the file at `path` with the flags of `o` does to a file
/// system `f0`, leaving `f1`: the checks in order, and the handle it gives.
pub open spec fn open_outcome(
    f0: InMemoryFs,
    f1: InMemoryFs,
    o: OpenFileOptions,
    path: Seq<u8>,
    r: Result<DbFile, FsError>,
) -> bool {
    &&& r is Err ==> f1 == f0
    &&& f0.index_of(path) is Some ==> forall|q: Seq<u8>| f1.index_of(q) == f0.index_of(q)
    &&& !o.write && o.truncate ==> r == Err::<DbFile, FsError>(FsError::InvalidInput)
    &&& !o.write && !o.read ==> r == Err::<DbFile, FsError>(FsError::InvalidInput)
    &&& (o.write || (o.read && !o.truncate)) ==> match f0.index_of(path) {
        Some(i) => if f0.is_dir_at(i) {
            r == Err::<DbFile, FsError>(FsError::AlreadyExists)
        } else if o.create_new {
            r == Err::<DbFile, FsError>(FsError::AlreadyExists)
        } else {
            r matches Ok(h) && h.node == i && h.read == o.read && h.write == o.write && h.pointer == (
            if o.write && o.truncate {
                0
            } else if o.write && o.append {
                f0.contents_at(i).len()
            } else {
                0
            }) && f1.count() == f0.count() && !f1.is_dir_at(i) && (if o.write && o.truncate {
                f1.contents_at(i) == Seq::<u8>::empty() && f1.buffer_at(i) == Seq::<u8>::empty()
            } else {
                f1 == f0
            })
        },
        None => match parent_path(path) {
            Some(dir) => match f0.index_of(dir) {
                Some(j) => if !f0.is_dir_at(j) {
                    r == Err::<DbFile, FsError>(FsError::NotFound)
                } else if o.write && (o.create || o.create_new) {
                    r matches Ok(h) && h.node == f0.count() && h.pointer == 0 && h.read == o.read
                        && h.write == o.write && f1.count() == f0.count() + 1 && f1.index_of(path)
                        == Some(h.node as int) && !f1.is_dir_at(h.node as int) && f1.contents_at(
                        h.node as int,
                    ) == Seq::<u8>::empty()
                } else {
                    r == Err::<DbFile, FsError>(FsError::InvalidInput)
                },
                None => r == Err::<DbFile, FsError>(FsError::NotFound),
            },
            None => r == Err::<DbFile, FsError>(FsError::NotFound),
        },
    }
}

pub struct InMemoryFs {
    paths: Vec<Vec<u8>>,
    nodes: Vec<Ident>,
}

impl InMemoryFs {
    pub closed spec fn wf(&self) -> bool {
        &&& self.paths@.len() == self.nodes@.len()
        &&& forall|i: int, j: int|
            0 <= i < self.paths@.len() && 0 <= j < self.paths@.len() && i != j ==> (
            #[trigger] self.paths@[i])@ != (#[trigger] self.paths@[j])@
        &&& forall|i: int| 0 <= i < self.nodes@.len() ==> match #[trigger] self.nodes@[i] {
            Ident::File(d) => d.wf(),
            Ident::Dir => true,
        }
    }

    /// The number of entries; an entry's index never changes.
    pub closed spec fn count(&self) -> nat {
        self.paths@.len()
    }

    /// The index of the entry at path `p`, if there is one.
    pub closed spec fn index_of(&self, p: Seq<u8>) -> Option<int> {
        if exists|i: int| 0 <= i < self.paths@.len() && self.paths@[i]@ == p {
            Some(choose|i: int| 0 <= i < self.paths@.len() && self.paths@[i]@ == p)
        } else {
            None
        }
    }

    /// Item `i`.
    pub closed spec fn node_at(&self, i: int) -> Ident {
        self.nodes@[i]
    }

    /// Whether entry `i` is a directory.
    pub closed spec fn is_dir_at(&self, i: int) -> bool {
        self.nodes@[i] is Dir
    }

    /// The flushed contents of file `i`.
    pub closed spec fn contents_at(&self, i: int) -> Seq<u8> {
        match self.nodes@[i] {
            Ident::File(d) => d.spec_contents(),
            Ident::Dir => Seq::empty(),
        }
    }

    /// The write buffer of file `i`.
    pub closed spec fn buffer_at(&self, i: int) -> Seq<u8> {
        match self.nodes@[i] {
            Ident::File(d) => d.spec_buffer(),
            Ident::Dir => Seq::empty(),
        }
    }

    /// An empty file system: no directory, not even the root.
    pub fn new() -> (r: InMemoryFs)
        ensures
            r.wf(),
            r.count() == 0,
            forall|p: Seq<u8>| r.index_of(p) is None,
    {
        InMemoryFs { paths: Vec::new(), nodes: Vec::new() }
    }

    fn find(&self, p: &[u8]) -> (r: Option<usize>)
        requires
            self.wf(),
        ensures
            r matches Some(i) ==> i < self.count() && self.index_of(p@) == Some(i as int),
            r is None ==> self.index_of(p@) is None,
    {
        let mut i: usize = 0;
        while i < self.paths.len()
            invariant
                self.wf(),
                i <= self.paths@.len(),
                forall|j: int| 0 <= j < i ==> self.paths@[j]@ != p@,
            decreases self.paths.len() - i,
        {
            if bytes_eq(self.paths[i].as_slice(), p) {
                proof {
                    let c = choose|c: int| 0 <= c < self.paths@.len() && self.paths@[c]@ == p@;
                    if c != i {
                        assert(self.paths@[c]@ != self.paths@[i as int]@);
                    }
                }
                return Some(i);
            }
            i = i + 1;
        }
        None
    }

    fn push_entry(&mut self, p: Vec<u8>, node: Ident) -> (r: usize)
        requires
            old(self).wf(),
            old(self).index_of(p@) is None,
            match node {
                Ident::File(d) => d.wf(),
                Ident::Dir => true,
            },
        ensures
            final(self).wf(),
            r == old(self).count(),
            final(self).count() == old(self).count() + 1,
            final(self).index_of(p@) == Some(r as int),
            forall|q: Seq<u8>| q != p@ ==> final(self).index_of(q) == old(self).index_of(q),
            forall|i: int| 0 <= i < old(self).count() ==> final(self).nodes@[i] == old(self).nodes@[i],
            final(self).nodes@[r as int] == node,
    {
        let r = self.paths.len();
        let ghost pp = p@;
        let ghost before = *self;
        self.paths.push(p);
        self.nodes.push(node);
        proof {
            assert(self.paths@[r as int]@ == pp);
            assert forall|q: Seq<u8>| q != pp implies self.index_of(q) == before.index_of(q) by {
                if exists|i: int| 0 <= i < self.paths@.len() && self.paths@[i]@ == q {
                    let i = choose|i: int| 0 <= i < self.paths@.len() && self.paths@[i]@ == q;
                    assert(i != r);
                    assert(before.paths@[i]@ == q);
                }
                if exists|i: int| 0 <= i < before.paths@.len() && before.paths@[i]@ == q {
                    let i = choose|i: int| 0 <= i < before.paths@.len() && before.paths@[i]@ == q;
                    assert(self.paths@[i]@ == q);
                }
            }
            let c = choose|c: int| 0 <= c < self.paths@.len() && self.paths@[c]@ == pp;
            if c != r {
                assert(before.paths@[c]@ == pp);
            }
        }
        r
    }

    /// Makes a directory at `path`; a directory there already is fine, a file
    /// there is an error.
    pub fn create_dir(&mut self, path: &[u8]) -> (r: Result<(), FsError>)
        requires
            old(self).wf(),
        ensures
            final(self).wf(),
            create_dir_outcome(*old(self), *final(self), path@, r),
    {
        match self.find(path) {
            Some(i) => if self.nodes[i].is_dir() {
                Ok(())
            } else {
                Err(FsError::AlreadyExists)
            },
            None => {
                let p = copy_slice(path);
                self.push_entry(p, Ident::Dir);
                Ok(())
            },
        }
    }

    fn take_node(&mut self, i: usize) -> (r: Ident)
        requires
            old(self).wf(),
            i < old(self).count(),
        ensures
            r == old(self).nodes@[i as int],
            final(self).paths == old(self).paths,
            final(self).nodes@ == old(self).nodes@.remove(i as int),
    {
        self.nodes.remove(i)
    }

    /// Opens the file at `options.path`, creating it when asked to and the
    /// directory that should hold it exists.
    pub fn open_file(&mut self, options: OpenFileOptions) -> (r: Result<DbFile, FsError>)
        requires
            old(self).wf(),
        ensures
            final(self).wf(),
            open_outcome(*old(self), *final(self), options, options.path@, r),
    {
        if !options.write && options.truncate {
            return Err(FsError::InvalidInput);
        }
        if !options.write && !options.read {
            return Err(FsError::InvalidInput);
        }
        match self.find(options.path.as_slice()) {
            Some(i) => {
                if self.nodes[i].is_dir() {
                    return Err(FsError::AlreadyExists);
                }
                if options.create_new {
                    return Err(FsError::AlreadyExists);
                }
                let mut pointer: usize = 0;
                if options.write && options.truncate {
                    let ghost before = *self;
                    let _old = self.take_node(i);
                    self.nodes.insert(i, Ident::File(FNode::new()));
                    proof {
                        assert(self.paths@ == before.paths@);
                        assert forall|q: Seq<u8>| self.index_of(q) == before.index_of(q) by {}
                        assert forall|x: int| 0 <= x < self.nodes@.len() implies match #[trigger] self.nodes@[x] {
                            Ident::File(d) => d.wf(),
                            Ident::Dir => true,
                        } by {
                            if x != i {
                                assert(self.nodes@[x] == before.nodes@[x]);
                            }
                        }
                    }
                } else if options.write && options.append {
                    match &self.nodes[i] {
                        Ident::File(d) => {
                            pointer = d.end_of_file_pointer();
                        },
                        Ident::Dir => {},
                    }
                }
                Ok(DbFile { node: i, pointer, read: options.read, write: options.write })
            },
            None => {
                match parent(options.path.as_slice()) {
                    Some(dir) => match self.find(dir.as_slice()) {
                        Some(j) => {
                            if !self.nodes[j].is_dir() {
                                return Err(FsError::NotFound);
                            }
                            if options.write && (options.create || options.create_new) {
                                let read = options.read;
                                let write = options.write;
                                let node = self.push_entry(options.path, Ident::File(FNode::new()));
                                Ok(DbFile { node, pointer: 0, read, write })
                            } else {
                                Err(FsError::InvalidInput)
                            }
                        },
                        None => Err(FsError::NotFound),
                    },
                    None => Err(FsError::NotFound),
                }
            },
        }
    }

    fn with_disk_write(&mut self, i: usize, buf: &[u8]) -> (r: usize)
        requires
            old(self).wf(),
            i < old(self).count(),
            !old(self).is_dir_at(i as int),
        ensures
            final(self).wf(),
            final(self).count() == old(self).count(),
            forall|q: Seq<u8>| final(self).index_of(q) == old(self).index_of(q),
            !final(self).is_dir_at(i as int),
            forall|x: int|
                0 <= x < old(self).count() && x != i ==> final(self).nodes@[x] == old(self).nodes@[x],
            1 <= buf@.len() ==> 1 <= r,
            r <= buf@.len(),
            final(self).contents_at(i as int) + final(self).buffer_at(i as int) == old(self).contents_at(i as int) + old(self).buffer_at(i as int) + buf@.subrange(0, r as int),
    {
        let ghost before = *self;
        let node = self.take_node(i);
        let r = match node {
            Ident::File(mut d) => {
                proof {
                    assert(before.nodes@[i as int] matches Ident::File(x) && x.wf());
                }
                let n = d.write(buf);
                self.nodes.insert(i, Ident::File(d));
                n
            },
            Ident::Dir => {
                self.nodes.insert(i, Ident::Dir);
                0
            },
        };
        proof {
            assert(self.paths@ == before.paths@);
            assert forall|q: Seq<u8>| self.index_of(q) == before.index_of(q) by {}
            assert forall|x: int| 0 <= x < self.nodes@.len() implies match #[trigger] self.nodes@[x] {
                Ident::File(d) => d.wf(),
                Ident::Dir => true,
            } by {
                if x != i {
                    assert(self.nodes@[x] == before.nodes@[x]);
                }
            }
            assert forall|x: int| 0 <= x < before.count() && x != i implies self.nodes@[x]
                == before.nodes@[x] by {}
            let c0 = before.contents_at(i as int);
            let b0 = before.buffer_at(i as int);
            assert(self.contents_at(i as int) + self.buffer_at(i as int) =~= c0 + b0
                + buf@.subrange(0, r as int));
        }
        r
    }

    /// Writes as much of `buf` as the file's buffer takes through handle `f`;
    /// returns how many bytes were taken, at least one of a non-empty `buf`.
    pub fn write(&mut self, f: &mut DbFile, buf: &[u8]) -> (r: Result<usize, FsError>)
        requires
            old(self).wf(),
            old(f).node < old(self).count(),
            !old(self).is_dir_at(old(f).node as int),
        ensures
            final(self).wf(),
            final(self).count() == old(self).count(),
            final(f).node == old(f).node && final(f).read == old(f).read && final(f).write == old(f).write,
            !final(self).is_dir_at(old(f).node as int),
            !old(f).write ==> r == Err::<usize, FsError>(FsError::PermissionDenied) && *final(self)
                == *old(self) && *final(f) == *old(f),
            old(f).write ==> (r matches Ok(n) && n <= buf@.len() && (1 <= buf@.len() ==> 1 <= n)
                && final(self).contents_at(old(f).node as int) + final(self).buffer_at(
                old(f).node as int,
            ) == old(self).contents_at(old(f).node as int) + old(self).buffer_at(old(f).node as int)
                + buf@.subrange(0, n as int) && final(f).pointer == (if old(f).pointer + n
                > usize::MAX {
                usize::MAX as int
            } else {
                old(f).pointer + n
            })),
            forall|x: int|
                0 <= x < old(self).count() && x != old(f).node ==> final(self).node_at(x) == old(self).node_at(x),
            forall|q: Seq<u8>| final(self).index_of(q) == old(self).index_of(q),
    {
        if !f.write {
            return Err(FsError::PermissionDenied);
        }
        let n = self.with_disk_write(f.node, buf);
        f.pointer = f.pointer.saturating_add(n);
        Ok(n)
    }

    /// Writes all of `buf` through handle `f`, flushing the buffer whenever
    /// it fills.
    pub fn write_all(&mut self, f: &mut DbFile, buf: &[u8]) -> (r: Result<(), FsError>)
        requires
            old(self).wf(),
            old(f).node < old(self).count(),
            !old(self).is_dir_at(old(f).node as int),
        ensures
            final(self).wf(),
            final(self).count() == old(self).count(),
            final(f).node == old(f).node,
            !old(f).write ==> r == Err::<(), FsError>(FsError::PermissionDenied),
            old(f).write ==> r is Ok && final(self).contents_at(old(f).node as int) + final(self).buffer_at(old(f).node as int) == old(self).contents_at(old(f).node as int) + old(self).buffer_at(old(f).node as int) + buf@,
            !old(f).write ==> *final(self) == *old(self) && *final(f) == *old(f),
            old(f).write ==> final(f).pointer == (if old(f).pointer + buf@.len() > usize::MAX {
                usize::MAX as int
            } else {
                old(f).pointer + buf@.len()
            }),
            final(f).read == old(f).read && final(f).write == old(f).write,
            !final(self).is_dir_at(old(f).node as int),
            forall|x: int|
                0 <= x < old(self).count() && x != old(f).node ==> final(self).node_at(x) == old(self).node_at(x),
            forall|q: Seq<u8>| final(self).index_of(q) == old(self).index_of(q),
    {
        if !f.write {
            return Err(FsError::PermissionDenied);
        }
        let mut done: usize = 0;
        let ghost start = old(self).contents_at(old(f).node as int) + old(self).buffer_at(
            old(f).node as int,
        );
        while done < buf.len()
            invariant
                self.wf(),
                f.write,
                f.node == old(f).node,
                f.node < self.count(),
                self.count() == old(self).count(),
                !self.is_dir_at(f.node as int),
                done <= buf@.len(),
                self.contents_at(f.node as int) + self.buffer_at(f.node as int) == start
                    + buf@.subrange(0, done as int),
                f.read == old(f).read,
                f.pointer == (if old(f).pointer + done > usize::MAX {
                    usize::MAX as int
                } else {
                    old(f).pointer + done
                }),
                forall|x: int|
                    0 <= x < old(self).count() && x != old(f).node ==> self.node_at(x) == old(self).node_at(x),
                forall|q: Seq<u8>| self.index_of(q) == old(self).index_of(q),
            decreases buf.len() - done,
        {
            let rest = copy_range(buf, done);
            let n = match self.write(f, rest.as_slice()) {
                Ok(n) => n,
                Err(e) => {
                    return Err(e);
                },
            };
            proof {
                assert(buf@.subrange(0, done as int) + rest@.subrange(0, n as int) =~= buf@.subrange(
                    0,
                    done + n,
                ));
            }
            done = done + n;
        }
        assert(buf@.subrange(0, buf@.len() as int) =~= buf@);
        Ok(())
    }

    /// Moves file `f`'s buffer to the end of its contents.
    pub fn flush(&mut self, f: &DbFile) -> (r: Result<(), FsError>)
        requires
            old(self).wf(),
            f.node < old(self).count(),
            !old(self).is_dir_at(f.node as int),
        ensures
            final(self).wf(),
            final(self).count() == old(self).count(),
            !final(self).is_dir_at(f.node as int),
            !f.write ==> r == Err::<(), FsError>(FsError::PermissionDenied) && *final(self) == *old(self),
            f.write ==> r is Ok && final(self).contents_at(f.node as int) == old(self).contents_at(
                f.node as int,
            ) + old(self).buffer_at(f.node as int) && final(self).buffer_at(f.node as int)
                == Seq::<u8>::empty(),
            forall|q: Seq<u8>| final(self).index_of(q) == old(self).index_of(q),
            forall|x: int|
                0 <= x < old(self).count() && x != f.node ==> final(self).node_at(x) == old(self).node_at(x),
    {
        if !f.write {
            return Err(FsError::PermissionDenied);
        }
        let i = f.node;
        let ghost before = *self;
        let node = self.take_node(i);
        match node {
            Ident::File(mut d) => {
                d.flush();
                self.nodes.insert(i, Ident::File(d));
            },
            Ident::Dir => {
                self.nodes.insert(i, Ident::Dir);
            },
        }
        proof {
            assert(self.paths@ == before.paths@);
            assert forall|q: Seq<u8>| self.index_of(q) == before.index_of(q) by {}
            assert forall|x: int| 0 <= x < self.nodes@.len() implies match #[trigger] self.nodes@[x] {
                Ident::File(d) => d.wf(),
                Ident::Dir => true,
            } by {
                if x != i {
                    assert(self.nodes@[x] == before.nodes@[x]);
                }
            }
        }
        Ok(())
    }

    /// Reads up to `max` flushed bytes from handle `f`'s position on, and
    /// moves the position past them.
    pub fn read(&self, f: &mut DbFile, max: usize) -> (r: Result<Vec<u8>, FsError>)
        requires
            self.wf(),
            old(f).node < self.count(),
        ensures
            !old(f).read ==> r == Err::<Vec<u8>, FsError>(FsError::PermissionDenied) && *final(f)
                == *old(f),
            old(f).read ==> (r matches Ok(v) && {
                let c = self.contents_at(old(f).node as int);
                let start: int = if old(f).pointer > c.len() {
                    c.len() as int
                } else {
                    old(f).pointer as int
                };
                let end: int = if start + max > c.len() {
                    c.len() as int
                } else {
                    start + max
                };
                &&& v@ == c.subrange(start, end)
                &&& final(f).pointer == end
                &&& final(f).node == old(f).node && final(f).read == old(f).read && final(f).write
                    == old(f).write
            }),
    {
        if !f.read {
            return Err(FsError::PermissionDenied);
        }
        match &self.nodes[f.node] {
            Ident::File(d) => {
                let c = d.as_reader();
                let start = if f.pointer > c.len() {
                    c.len()
                } else {
                    f.pointer
                };
                let end = if max > c.len() - start {
                    c.len()
                } else {
                    start + max
                };
                let mut v: Vec<u8> = Vec::new();
                let mut j: usize = start;
                while j < end
                    invariant
                        start <= j <= end,
                        end <= c@.len(),
                        v@ == c@.subrange(start as int, j as int),
                    decreases end - j,
                {
                    v.push(c[j]);
                    j = j + 1;
                    assert(v@ =~= c@.subrange(start as int, j as int));
                }
                f.pointer = end;
                Ok(v)
            },
            Ident::Dir => {
                f.pointer = 0;
                Ok(Vec::new())
            },
        }
    }
}

fn copy_range(s: &[u8], from: usize) -> (r: Vec<u8>)
    requires
        from <= s@.len(),
    ensures
        r@ == s@.subrange(from as int, s@.len() as int),
{
    let mut r: Vec<u8> = Vec::new();
    let mut j: usize = from;
    while j < s.len()
        invariant
            from <= j <= s@.len(),
            r@ == s@.subrange(from as int, j as int),
        decreases s.len() - j,
    {
        r.push(s[j]);
        j = j + 1;
        assert(r@ =~= s@.subrange(from as int, j as int));
    }
    r
}

fn copy_slice(s: &[u8]) -> (r: Vec<u8>)
    ensures
        r@ == s@,
{
    let mut r: Vec<u8> = Vec::new();
    append_all(&mut r, s);
    r
}

/// A file system rooted at a base directory; every path it is given is
/// taken relative to the base.
pub struct FileSystem {
    base_path: Vec<u8>,
    memory: InMemoryFs,
}

impl FileSystem {
    pub closed spec fn base(&self) -> Seq<u8> {
        self.base_path@
    }

    pub closed spec fn files(&self) -> InMemoryFs {
        self.memory
    }

    pub closed spec fn wf(&self) -> bool {
        self.memory.wf()
    }

    /// A file system over `input`, rooted at `/`.
    pub fn in_memory(input: InMemoryFs) -> (r: FileSystem)
        requires
            input.wf(),
        ensures
            r.wf(),
            r.base() == seq![0x2fu8],
            r.files() == input,
    {
        let r = FileSystem { base_path: vec![0x2fu8], memory: input };
        assert(r.base_path@ =~= seq![0x2fu8]);
        r
    }

    /// Makes sure the base directory exists.
    pub fn open_base_dir(&mut self) -> (r: Result<(), FsError>)
        requires
            old(self).wf(),
        ensures
            final(self).wf(),
            final(self).base() == old(self).base(),
            create_dir_outcome(old(self).files(), final(self).files(), old(self).base(), r),
    {
        self.memory.create_dir(self.base_path.as_slice())
    }

    /// Makes sure directory `path` exists under the base.
    pub fn create_dir_if_not_exist(&mut self, path: &str) -> (r: Result<(), FsError>)
        requires
            old(self).wf(),
        ensures
            final(self).wf(),
            final(self).base() == old(self).base(),
            create_dir_outcome(
                old(self).files(),
                final(self).files(),
                join_path(old(self).base(), path.spec_bytes()),
                r,
            ),
    {
        let p = join(self.base_path.as_slice(), path.as_bytes());
        self.memory.create_dir(p.as_slice())
    }

    /// Opens a file under the base; `options.path` is taken relative to it.
    pub fn open_file(&mut self, options: OpenFileOptions) -> (r: Result<DbFile, FsError>)
        requires
            old(self).wf(),
        ensures
            final(self).wf(),
            final(self).base() == old(self).base(),
            open_outcome(
                old(self).files(),
                final(self).files(),
                options,
                join_path(old(self).base(), options.path@),
                r,
            ),
    {
        let p = join(self.base_path.as_slice(), options.path.as_slice());
        let opts = OpenFileOptions { path: p, ..options };
        self.memory.open_file(opts)
    }

    /// Writes as much of `buf` as the file's buffer takes.
    pub fn write(&mut self, f: &mut DbFile, buf: &[u8]) -> (r: Result<usize, FsError>)
        requires
            old(self).wf(),
            old(f).node < old(self).files().count(),
            !old(self).files().is_dir_at(old(f).node as int),
        ensures
            final(self).wf(),
            final(self).base() == old(self).base(),
            final(f).node == old(f).node,
            final(self).files().count() == old(self).files().count(),
            !final(self).files().is_dir_at(old(f).node as int),
            !old(f).write ==> r == Err::<usize, FsError>(FsError::PermissionDenied),
            old(f).write ==> (r matches Ok(n) && n <= buf@.len() && (1 <= buf@.len() ==> 1 <= n)
                && final(self).files().contents_at(old(f).node as int) + final(
                self).files().buffer_at(old(f).node as int) == old(self).files().contents_at(
                old(f).node as int,
            ) + old(self).files().buffer_at(old(f).node as int) + buf@.subrange(0, n as int)),
            forall|x: int|
                0 <= x < old(self).files().count() && x != old(f).node ==> final(self).files().node_at(x)
                    == old(self).files().node_at(x),
            forall|q: Seq<u8>| final(self).files().index_of(q) == old(self).files().index_of(q),
    {
        self.memory.write(f, buf)
    }

    /// Writes all of `buf`.
    pub fn write_all(&mut self, f: &mut DbFile, buf: &[u8]) -> (r: Result<(), FsError>)
        requires
            old(self).wf(),
            old(f).node < old(self).files().count(),
            !old(self).files().is_dir_at(old(f).node as int),
        ensures
            final(self).wf(),
            final(self).base() == old(self).base(),
            final(f).node == old(f).node,
            final(self).files().count() == old(self).files().count(),
            !old(f).write ==> r == Err::<(), FsError>(FsError::PermissionDenied),
            old(f).write ==> final(f).pointer == (if old(f).pointer + buf@.len() > usize::MAX {
                usize::MAX as int
            } else {
                old(f).pointer + buf@.len()
            }),
            old(f).write ==> r is Ok && final(self).files().contents_at(old(f).node as int)
                + final(self).files().buffer_at(old(f).node as int) == old(self).files().contents_at(
                old(f).node as int,
            ) + old(self).files().buffer_at(old(f).node as int) + buf@,
            forall|x: int|
                0 <= x < old(self).files().count() && x != old(f).node ==> final(self).files().node_at(x)
                    == old(self).files().node_at(x),
            forall|q: Seq<u8>| final(self).files().index_of(q) == old(self).files().index_of(q),
    {
        self.memory.write_all(f, buf)
    }

    /// Moves the file's buffer to the end of its contents.
    pub fn flush(&mut self, f: &DbFile) -> (r: Result<(), FsError>)
        requires
            old(self).wf(),
            f.node < old(self).files().count(),
            !old(self).files().is_dir_at(f.node as int),
        ensures
            final(self).wf(),
            final(self).base() == old(self).base(),
            final(self).files().count() == old(self).files().count(),
            !f.write ==> r == Err::<(), FsError>(FsError::PermissionDenied),
            f.write ==> r is Ok && final(self).files().contents_at(f.node as int) == old(
                self,
            ).files().contents_at(f.node as int) + old(self).files().buffer_at(f.node as int),
            forall|x: int|
                0 <= x < old(self).files().count() && x != f.node ==> final(self).files().node_at(x)
                    == old(self).files().node_at(x),
            forall|q: Seq<u8>| final(self).files().index_of(q) == old(self).files().index_of(q),
    {
        self.memory.flush(f)
    }

    /// Reads up to `max` flushed bytes from the handle's position on.
    pub fn read(&self, f: &mut DbFile, max: usize) -> (r: Result<Vec<u8>, FsError>)
        requires
            self.wf(),
            old(f).node < self.files().count(),
        ensures
            !old(f).read ==> r == Err::<Vec<u8>, FsError>(FsError::PermissionDenied),
            old(f).read ==> (r matches Ok(v) && {
                let c = self.files().contents_at(old(f).node as int);
                let start: int = if old(f).pointer > c.len() {
                    c.len() as int
                } else {
                    old(f).pointer as int
                };
                let end: int = if start + max > c.len() {
                    c.len() as int
                } else {
                    start + max
                };
                &&& v@ == c.subrange(start, end)
                &&& final(f).pointer == end
            }),
            final(f).node == old(f).node,
    {
        self.memory.read(f, max)
    }

    /// Reads every flushed byte from the handle's position on.
    pub fn read_to_end(&self, f: &mut DbFile) -> (r: Result<Vec<u8>, FsError>)
        requires
            self.wf(),
            old(f).node < self.files().count(),
        ensures
            !old(f).read ==> r == Err::<Vec<u8>, FsError>(FsError::PermissionDenied),
            old(f).read ==> (r matches Ok(v) && {
                let c = self.files().contents_at(old(f).node as int);
                let start: int = if old(f).pointer > c.len() {
                    c.len() as int
                } else {
                    old(f).pointer as int
                };
                v@ == c.subrange(start, c.len() as int)
            }),
    {
        proof {
            match self.memory.node_at(old(f).node as int) {
                Ident::File(d) => {
                    d.lemma_wf();
                },
                Ident::Dir => {},
            }
        }
        self.memory.read(f, usize::MAX)
    }
}

} // verus!
