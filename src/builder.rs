//! Building a tree's schema history one version at a time.
use crate::codec::KeyWidth;
use crate::database::{Database, DbError, MAX_NAME_LEN};
use crate::memtable::SlotModel;
use crate::tree::VersionedTree;
use vstd::prelude::*;
use vstd::string::StringSliceAdditionalSpecFns;

verus! {

/// A tree's name and schema history while it is being declared: it starts
/// at version zero and each migration adds the next version.
pub struct TreeBuilder {
    name: String,
    table: Vec<u8>,
    width: KeyWidth,
    versions: Vec<VersionedTree>,
}

impl TreeBuilder {
    pub closed spec fn spec_name(&self) -> Seq<char> {
        self.name@
    }

    /// The name's UTF-8 bytes: the table name that log entries carry.
    pub closed spec fn spec_table(&self) -> Seq<u8> {
        self.table@
    }

    /// The name's bytes are those of any string with the name's characters,
    /// and the history holds between one and `u16::MAX` versions.
    pub closed spec fn wf(&self) -> bool {
        &&& forall|s: &str| #[trigger] s.view() == self.name@ ==> s.spec_bytes() == self.table@
        &&& 1 <= self.versions@.len() <= u16::MAX
    }

    pub closed spec fn spec_width(&self) -> KeyWidth {
        self.width
    }

    /// The number of versions declared so far.
    pub closed spec fn version_count(&self) -> nat {
        self.versions@.len()
    }

    /// The sequence number of version `i`.
    pub closed spec fn sequence_at(&self, i: int) -> u64 {
        self.versions@[i].sequence
    }

    /// Starts the history of tree `name` at version zero, with keys of
    /// `width` and the given type names and default-value encodings.
    pub fn new(
        name: &str,
        width: KeyWidth,
        key_name: &str,
        value_name: &str,
        value_json: Vec<u8>,
        value_binary: Vec<u8>,
    ) -> (r: TreeBuilder)
        ensures
            r.wf(),
            r.spec_name() == name@,
            r.spec_table() == name.spec_bytes(),
            r.spec_width() == width,
            r.version_count() == 1,
            r.sequence_at(0) == 0,
    {
        let v = VersionedTree::new(0, name, key_name, value_name, value_json, value_binary);
        let mut versions: Vec<VersionedTree> = Vec::new();
        versions.push(v);
        let mut table: Vec<u8> = Vec::new();
        crate::entry::append_all(&mut table, name.as_bytes());
        TreeBuilder { name: name.to_owned(), table, width, versions }
    }

    /// Adds the next version, whose records the previous version's records
    /// are upgraded to; fails once `u16::MAX` versions exist.
    pub fn migrate(
        self,
        width: KeyWidth,
        key_name: &str,
        value_name: &str,
        value_json: Vec<u8>,
        value_binary: Vec<u8>,
    ) -> (r: Result<TreeBuilder, DbError>)
        requires
            self.wf(),
        ensures
            self.version_count() >= u16::MAX ==> r == Err::<TreeBuilder, DbError>(
                DbError::BadSchema,
            ),
            self.version_count() < u16::MAX ==> (r matches Ok(b) && b.wf() && b.spec_name()
                == self.spec_name() && b.spec_table() == self.spec_table() && b.spec_width() == width && b.version_count()
                == self.version_count() + 1 && b.sequence_at(self.version_count() as int)
                == self.version_count() && forall|i: int|
                0 <= i < self.version_count() ==> b.sequence_at(i) == self.sequence_at(i)),
    {
        let n = self.versions.len();
        if n >= 65535 {
            return Err(DbError::BadSchema);
        }
        let TreeBuilder { name, table, width: _, mut versions } = self;
        let v = VersionedTree::new(
            n as u64,
            name.as_str(),
            key_name,
            value_name,
            value_json,
            value_binary,
        );
        versions.push(v);
        Ok(TreeBuilder { name, table, width, versions })
    }

    /// Registers the tree with the database under its latest version;
    /// returns the tree's index. Trees are registered before recovery, under
    /// names not taken yet.
    pub fn open(self, db: &mut Database) -> (r: Result<usize, DbError>)
        requires
            self.wf(),
            old(db).wf(),
        ensures
            final(db).wf(),
            r == if old(db).is_ready() {
                Err::<usize, DbError>(DbError::AlreadyRestored)
            } else if self.spec_table().len() > MAX_NAME_LEN {
                Err(DbError::TooLarge)
            } else if exists|i: int|
                0 <= i < old(db).tree_count() && old(db).tree_table(i) == self.spec_table() {
                Err(DbError::DuplicateTree)
            } else {
                Ok(old(db).tree_count() as usize)
            },
            r is Err ==> *final(db) == *old(db),
            final(db).is_ready() == old(db).is_ready(),
            r matches Ok(t) ==> {
                &&& final(db).tree_count() == old(db).tree_count() + 1
                &&& final(db).tree_table(t as int) == self.spec_table()
                &&& final(db).tree_width(t as int) == self.spec_width()
                &&& final(db).tree_version(t as int) == self.version_count() - 1
                &&& final(db).tree_view(t as int) == Map::<Seq<u8>, SlotModel>::empty()
                &&& final(db).tree_max(t as int) is None
                &&& forall|i: int|
                    0 <= i < old(db).tree_count() ==> final(db).tree_view(i) == old(db).tree_view(i)
                        && final(db).tree_table(i) == old(db).tree_table(i) && final(db).tree_width(
                        i,
                    ) == old(db).tree_width(i) && final(db).tree_version(i) == old(db).tree_version(
                        i,
                    ) && final(db).tree_max(i) == old(db).tree_max(i)
            },
    {
        let TreeBuilder { name, table: _, width, versions } = self;
        let n = name.as_str();
        db.create_tree(n, width, versions)
    }
}

} // verus!
