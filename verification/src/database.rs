use vstd::prelude::*;

use crate::ast::{schema_ok, value_rank, TableSchema, Value};
use crate::btree::{fill_ok, insert_sorted, seq_lookup, sorted, wf_node};
use crate::errors::DbError;
use crate::table::StorageTable;

verus! {

/// A stable logical address for a stored row: a storage page and a slot
/// within it. Assigned once at insertion and immutable thereafter.
#[derive(Debug, Clone, Copy, PartialEq, Eq, Hash, Structural)]
pub struct RecordID {
    pub page_number: u32,
    pub slot_id: u8,
}

impl RecordID {
    pub fn new(page_number: u32, slot_id: u8) -> (r: RecordID)
        ensures
            r.page_number == page_number,
            r.slot_id == slot_id,
    {
        RecordID { page_number, slot_id }
    }
}

/// A table as the database sees it: something that accepts a row and
/// either stores it under a fresh `RecordID` or reports why it cannot.
/// Implemented by the storage layer; `StorageTable` is the built-in one.
pub trait Table: Sized {
    /// The table's own well-formedness, kept by every operation.
    spec fn inv(&self) -> bool;

    /// The key/record association the table's index holds.
    spec fn model(&self) -> Seq<(int, RecordID)>;

    /// The key rank under which the table, in its current state, would
    /// index this row.
    spec fn spec_row_key(&self, row: Seq<Value>) -> int;

    /// Whether the table, in its current state, accepts this row: exactly
    /// the rows on which `insert` succeeds.
    spec fn accepts(&self, row: Seq<Value>) -> bool;

    /// Stores a row: on success the row's key/record pair lands at its
    /// ordered place in the index, and the key was fresh; on failure the
    /// index is unchanged.
    fn insert(&mut self, row: Vec<Value>) -> (r: Result<RecordID, DbError>)
        requires
            old(self).inv(),
        ensures
            final(self).inv(),
            r is Ok <==> old(self).accepts(row@),
            match r {
                Ok(rid) => seq_lookup(old(self).model(), old(self).spec_row_key(row@)) is None
                    && final(self).model() == insert_sorted(
                    old(self).model(),
                    old(self).spec_row_key(row@),
                    rid,
                ),
                Err(_) => final(self).model() == old(self).model(),
            },
    ;
}

/// A constructor of tables from schemas, chosen by the storage backend.
pub trait Factory<T: Table>: Sized {
    /// The schemas from which this factory builds a table: exactly those on
    /// which `new_table` succeeds.
    spec fn accepts(&self, schema: TableSchema) -> bool;

    /// What this factory builds from a schema: every table handed out
    /// satisfies this predicate for the schema it was built from.
    spec fn spec_built(&self, schema: TableSchema, t: T) -> bool;

    fn new_table(&mut self, schema: TableSchema) -> (r: Result<T, DbError>)
        ensures
            r is Ok <==> old(self).accepts(schema),
            r matches Ok(t) ==> t.inv() && old(self).spec_built(schema, t),
    ;
}

impl Table for StorageTable {
    open spec fn inv(&self) -> bool {
        self.wf()
    }

    open spec fn model(&self) -> Seq<(int, RecordID)> {
        self.index_kvs()
    }

    open spec fn spec_row_key(&self, row: Seq<Value>) -> int {
        value_rank(self.spec_key(row))
    }

    open spec fn accepts(&self, row: Seq<Value>) -> bool {
        &&& row.len() == self.spec_schema().columns@.len()
        &&& self.row_count() < crate::table::TABLE_CAPACITY
        &&& seq_lookup(self.index_kvs(), value_rank(self.spec_key(row))) is None
    }

    fn insert(&mut self, row: Vec<Value>) -> (r: Result<RecordID, DbError>) {
        self.insert_row(row)
    }
}

/// The built-in factory: validates the schema and builds a
/// `StorageTable` over a fresh index.
pub struct StorageFactory {}

impl StorageFactory {
    pub fn new() -> (r: StorageFactory) {
        StorageFactory {  }
    }
}

impl Factory<StorageTable> for StorageFactory {
    open spec fn accepts(&self, schema: TableSchema) -> bool {
        schema_ok(schema.columns@)
    }

    open spec fn spec_built(&self, schema: TableSchema, t: StorageTable) -> bool {
        &&& t.wf()
        &&& t.spec_schema() == schema
        &&& t.row_count() == 0
        &&& t.index_kvs() == Seq::<(int, RecordID)>::empty()
    }

    fn new_table(&mut self, schema: TableSchema) -> Result<StorageTable, DbError> {
        StorageTable::new(schema)
    }
}

/// The registry of tables: routes operations by table name, claims each
/// name at most once, and builds new tables through its factory. The
/// registry owns its tables and its factory and is driven through
/// `&mut self`: exclusive ownership replaces the concurrent map and the
/// factory lock of a multi-threaded embedding, and makes the registry's
/// guarantees provable.
pub struct Database<T: Table, F: Factory<T>> {
    factory: F,
    tables: Vec<(String, T)>,
}

impl<T: Table, F: Factory<T>> Database<T, F> {
    /// The registered table names, in registration order.
    pub closed spec fn names(self) -> Seq<Seq<char>> {
        self.tables@.map_values(|p: (String, T)| p.0@)
    }

    /// The registered tables themselves, with their names, in
    /// registration order.
    pub closed spec fn spec_tables(self) -> Seq<(String, T)> {
        self.tables@
    }

    /// The factory the database builds tables with.
    pub closed spec fn spec_factory(self) -> F {
        self.factory
    }

    /// True when a table is registered under the name.
    pub open spec fn has_table(self, name: Seq<char>) -> bool {
        exists|i: int| 0 <= i < self.names().len() && self.names()[i] == name
    }

    /// The registry invariant: table names are unique, and every
    /// registered table upholds its own invariant.
    pub closed spec fn wf(self) -> bool {
        &&& forall|i: int, j: int|
            0 <= i < j < self.names().len() ==> self.names()[i] != self.names()[j]
        &&& forall|i: int| 0 <= i < self.tables@.len() ==> (#[trigger] self.tables@[i]).1.inv()
    }

    /// Creates a new database around a table factory.
    pub fn new(factory: F) -> (d: Database<T, F>)
        ensures
            d.wf(),
            d.spec_tables() == Seq::<(String, T)>::empty(),
            d.spec_factory() == factory,
            d.names() == Seq::<Seq<char>>::empty(),
    {
        let d = Database { factory, tables: Vec::new() };
        proof {
            assert(d.spec_tables() =~= Seq::<(String, T)>::empty());
            assert(d.names() =~= Seq::<Seq<char>>::empty());
        }
        d
    }

    fn find(&self, name: &String) -> (r: Option<usize>)
        ensures
            match r {
                Some(i) => i < self.names().len() && self.names()[i as int] == name@,
                None => !self.has_table(name@),
            },
    {
        let mut i: usize = 0;
        while i < self.tables.len()
            invariant
                i <= self.tables@.len(),
                forall|j: int| 0 <= j < i ==> self.names()[j] != name@,
            decreases self.tables@.len() - i,
        {
            if self.tables[i].0 == *name {
                return Some(i);
            }
            i = i + 1;
        }
        None
    }

    /// Registers a table under the schema's name. A name already present is
    /// rejected with `AlreadyExists` and nothing changes — the first
    /// registration wins and is never replaced. Otherwise the factory
    /// builds the table; its error is passed through unchanged.
    pub fn create_table(&mut self, schema: TableSchema) -> (r: Result<(), DbError>)
        requires
            old(self).wf(),
        ensures
            final(self).wf(),
            r is Ok <==> (!old(self).has_table(schema.name@) && old(self).spec_factory().accepts(
                schema,
            )),
            match r {
                Ok(()) => !old(self).has_table(schema.name@) && (exists|t: T|
                    #![auto]
                    final(self).spec_tables() == old(self).spec_tables().push((schema.name, t))
                        && old(self).spec_factory().spec_built(schema, t)) && final(self).names()
                    == old(self).names().push(schema.name@),
                Err(e) => final(self).spec_tables() == old(self).spec_tables() && final(self).names() == old(self).names() && (old(self).has_table(schema.name@) ==> e
                    == DbError::AlreadyExists(schema.name)),
            },
    {
        match self.find(&schema.name) {
            Some(_) => Err(DbError::AlreadyExists(schema.name.clone())),
            None => {
                let name = schema.name.clone();
                match self.factory.new_table(schema) {
                    Err(e) => Err(e),
                    Ok(t) => {
                        self.tables.push((name, t));
                        proof {
                            assert(self.names() =~= old(self).names().push(schema.name@));
                            assert(self.spec_tables() == old(self).spec_tables().push(
                                (schema.name, self.tables@.last().1),
                            )) by {
                                assert(self.tables@.last().0 == schema.name);
                                assert(self.spec_tables() =~= old(self).spec_tables().push(
                                    (schema.name, self.tables@.last().1),
                                ));
                            }
                        }
                        Ok(())
                    },
                }
            },
        }
    }

    /// Hands a row to the table registered under the name. A missing name
    /// is rejected with `NoSuchTable` and nothing changes; otherwise exactly
    /// the addressed table receives the row, the result is its own verdict —
    /// success exactly when that table accepts the row — and the assigned
    /// `RecordID` is discarded. No other table changes, and the set of
    /// registered names never changes. On success the addressed table's
    /// association becomes `insert_sorted` of the old one at the row's key,
    /// so `BPTree::lemma_insert_lookup` and
    /// `BPTree::lemma_insert_preserves_other` carry the round-trip law here:
    /// the stored pair is found by a later lookup until overwritten or
    /// rejected, and other keys keep their associations.
    pub fn insert(&mut self, table_name: &str, row: Vec<Value>) -> (r: Result<(), DbError>)
        requires
            old(self).wf(),
        ensures
            final(self).wf(),
            final(self).names() == old(self).names(),
            final(self).spec_tables().len() == old(self).spec_tables().len(),
            !old(self).has_table(table_name@) ==> (r matches Err(e) && (e matches
                DbError::NoSuchTable(nm) && nm@ == table_name@)) && final(self).spec_tables()
                == old(self).spec_tables(),
            forall|j: int|
                0 <= j < old(self).spec_tables().len() && old(self).names()[j] != table_name@
                    ==> final(self).spec_tables()[j] == old(self).spec_tables()[j],
            old(self).has_table(table_name@) ==> exists|i: int|
                0 <= i < old(self).spec_tables().len() && old(self).names()[i] == table_name@ && {
                    let t0 = (#[trigger] old(self).spec_tables()[i]).1;
                    let t1 = final(self).spec_tables()[i].1;
                    &&& final(self).spec_tables()[i].0 == old(self).spec_tables()[i].0
                    &&& (r is Ok <==> t0.accepts(row@))
                    &&& (r is Ok ==> seq_lookup(t0.model(), t0.spec_row_key(row@)) is None
                        && exists|rid: RecordID|
                        t1.model() == insert_sorted(t0.model(), t0.spec_row_key(row@), rid))
                    &&& (r is Err ==> t1.model() == t0.model())
                },
    {
        let wanted = table_name.to_owned();
        match self.find(&wanted) {
            None => {
                proof {
                    assert(self.spec_tables() == old(self).spec_tables());
                }
                Err(DbError::NoSuchTable(wanted))
            },
            Some(i) => {
                let ghost i0 = i as int;
                let ghost t0 = self.tables@[i0].1;
                let mut pair = self.tables.remove(i);
                let res = pair.1.insert(row);
                self.tables.insert(i, pair);
                proof {
                    assert(self.spec_tables() =~= old(self).spec_tables().update(
                        i0,
                        (old(self).spec_tables()[i0].0, self.spec_tables()[i0].1),
                    ));
                    assert(self.names() =~= old(self).names());
                    assert forall|j: int|
                        0 <= j < old(self).spec_tables().len() && old(self).names()[j]
                            != table_name@ implies final(self).spec_tables()[j] == old(self).spec_tables()[j] by {
                        assert(j != i0);
                    }
                }
                match res {
                    Ok(_rid) => Ok(()),
                    Err(e) => Err(e),
                }
            },
        }
    }
}

impl<F: Factory<StorageTable>> Database<StorageTable, F> {
    /// The index laws at the registry: in a well-formed database — so after
    /// any sequence of operations — every registered table's association is
    /// strictly sorted (ordering law), and every node of its index tree
    /// obeys the fan-out bounds, every non-root node at least half full
    /// (fill law).
    pub proof fn lemma_registered_indexes_wf(self)
        requires
            self.wf(),
        ensures
            forall|i: int|
                0 <= i < self.spec_tables().len() ==> sorted(
                    (#[trigger] self.spec_tables()[i]).1.model(),
                ),
            forall|i: int|
                0 <= i < self.spec_tables().len() ==> wf_node(
                    (#[trigger] self.spec_tables()[i]).1.spec_index().spec_root(),
                    self.spec_tables()[i].1.spec_index().spec_order(),
                ),
            forall|i: int|
                0 <= i < self.spec_tables().len() ==> fill_ok(
                    (#[trigger] self.spec_tables()[i]).1.spec_index().spec_root(),
                    self.spec_tables()[i].1.spec_index().spec_order(),
                    true,
                ),
    {
        assert forall|i: int| 0 <= i < self.spec_tables().len() implies sorted(
            (#[trigger] self.spec_tables()[i]).1.model(),
        ) && wf_node(
            self.spec_tables()[i].1.spec_index().spec_root(),
            self.spec_tables()[i].1.spec_index().spec_order(),
        ) && fill_ok(
            self.spec_tables()[i].1.spec_index().spec_root(),
            self.spec_tables()[i].1.spec_index().spec_order(),
            true,
        ) by {
            assert(self.tables@[i].1.inv());
            self.spec_tables()[i].1.lemma_index_invariants();
        }
    }
}

} // verus!
