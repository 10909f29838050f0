use vstd::prelude::*;

use crate::ast::{is_first_schema_error, schema_ok, value_rank, TableSchema, Value};
use crate::btree::{fill_ok, insert_sorted, seq_lookup, sorted, wf_node, BPTree};
use crate::database::RecordID;
use crate::errors::DbError;

verus! {

/// Rows per storage page: one slot per `u8` slot id.
pub const SLOTS_PER_PAGE: u64 = 256;

/// The number of addressable rows: one slot per page/slot pair.
pub const TABLE_CAPACITY: u64 = 0x100_0000_0000;

/// The default index fan-out used for new tables.
pub const DEFAULT_ORDER: usize = 16;

/// The record address assigned to the row with ordinal `count`: slots are
/// filled in order, a page at a time.
pub open spec fn spec_rid(count: u64) -> RecordID {
    RecordID { page_number: (count / 256) as u32, slot_id: (count % 256) as u8 }
}

/// A table backed by a B+Tree index: rows are validated against the schema,
/// addressed by monotonically assigned `RecordID`s, and indexed by the
/// declared primary key, or by a surrogate integer key when none is declared.
pub struct StorageTable {
    schema: TableSchema,
    pk_index: Option<usize>,
    tree: BPTree,
    count: u64,
}

impl StorageTable {
    /// The index position of the primary-key column, if one is declared.
    pub closed spec fn spec_pk(self) -> Option<int> {
        match self.pk_index {
            None => None,
            Some(i) => Some(i as int),
        }
    }

    pub closed spec fn spec_schema(self) -> TableSchema {
        self.schema
    }

    /// How many rows have been inserted so far.
    pub closed spec fn row_count(self) -> u64 {
        self.count
    }

    /// The key/record association held by the table's index.
    pub closed spec fn index_kvs(self) -> Seq<(int, RecordID)> {
        self.tree.kvs()
    }

    /// The B+Tree backing the table.
    pub closed spec fn spec_index(self) -> BPTree {
        self.tree
    }

    /// Bridge to the index laws: a well-formed table holds a well-formed
    /// tree, whose entries are the table's association. With the tree's own
    /// lemmas this carries the ordering, fill, and round-trip laws up to the
    /// table: the association is strictly sorted, and every node of the
    /// index obeys the fan-out bounds.
    pub proof fn lemma_index_invariants(self)
        requires
            self.wf(),
        ensures
            self.spec_index().wf(),
            self.index_kvs() == self.spec_index().kvs(),
            sorted(self.index_kvs()),
            wf_node(self.spec_index().spec_root(), self.spec_index().spec_order()),
            fill_ok(self.spec_index().spec_root(), self.spec_index().spec_order(), true),
    {
        self.tree.lemma_inorder_sorted();
        self.tree.lemma_fill_invariant();
    }

    /// The key a row is indexed under: its primary-key value, or a
    /// surrogate integer counting the rows when no primary key is declared.
    pub open spec fn spec_key(self, row: Seq<Value>) -> Value {
        match self.spec_pk() {
            Some(i) => row[i],
            None => Value::Integer(self.row_count() as i64),
        }
    }

    pub closed spec fn wf(self) -> bool {
        &&& self.tree.wf()
        &&& self.count <= TABLE_CAPACITY
        &&& match self.pk_index {
            Some(i) => i < self.schema.columns@.len() && self.schema.columns@[
                i as int
            ].is_primary_key,
            None => true,
        }
    }

    /// Builds a table from a schema, which must pass schema validation;
    /// an invalid schema is rejected with the validator's error.
    pub fn new(schema: TableSchema) -> (r: Result<StorageTable, DbError>)
        ensures
            r is Ok <==> schema_ok(schema.columns@),
            r matches Ok(t) ==> t.wf() && t.spec_schema() == schema && t.row_count() == 0
                && t.index_kvs() == Seq::<(int, RecordID)>::empty(),
            r matches Err(e) ==> is_first_schema_error(schema.columns@, schema.name, e),
    {
        match schema.validate() {
            Err(e) => Err(e),
            Ok(()) => {
                let mut pk_index: Option<usize> = None;
                let mut i: usize = 0;
                while i < schema.columns.len()
                    invariant
                        i <= schema.columns@.len(),
                        match pk_index {
                            Some(p) => p < i && schema.columns@[p as int].is_primary_key,
                            None => true,
                        },
                    decreases schema.columns@.len() - i,
                {
                    if schema.columns[i].is_primary_key && pk_index.is_none() {
                        pk_index = Some(i);
                    }
                    i = i + 1;
                }
                let tree = BPTree::new(DEFAULT_ORDER);
                Ok(StorageTable { schema, pk_index, tree, count: 0 })
            },
        }
    }

    /// Inserts a row: the arity is checked against the schema, a fresh
    /// `RecordID` is assigned, and the row's key is added to the index.
    /// Nothing changes on failure; each error names its cause, checked in
    /// this order: wrong arity, exhausted address space, duplicate key.
    pub fn insert_row(&mut self, row: Vec<Value>) -> (r: Result<RecordID, DbError>)
        requires
            old(self).wf(),
        ensures
            final(self).wf(),
            final(self).spec_schema() == old(self).spec_schema(),
            final(self).spec_pk() == old(self).spec_pk(),
            match r {
                Ok(rid) => row@.len() == old(self).spec_schema().columns@.len() && old(self).row_count() < TABLE_CAPACITY && rid == spec_rid(old(self).row_count()) && final(self).row_count() == old(self).row_count() + 1 && seq_lookup(
                    old(self).index_kvs(),
                    value_rank(old(self).spec_key(row@)),
                ) is None && final(self).index_kvs() == insert_sorted(
                    old(self).index_kvs(),
                    value_rank(old(self).spec_key(row@)),
                    rid,
                ),
                Err(e) => final(self).row_count() == old(self).row_count() && final(self).index_kvs() == old(self).index_kvs() && e == (if row@.len() != old(self).spec_schema().columns@.len() {
                    DbError::ArityMismatch {
                        values: row@.len() as usize,
                        columns: old(self).spec_schema().columns@.len() as usize,
                    }
                } else if old(self).row_count() == TABLE_CAPACITY {
                    DbError::TableFull
                } else {
                    DbError::DuplicateKey
                }) && (e == DbError::DuplicateKey ==> seq_lookup(
                    old(self).index_kvs(),
                    value_rank(old(self).spec_key(row@)),
                ) is Some),
            },
    {
        if row.len() != self.schema.columns.len() {
            return Err(
                DbError::ArityMismatch { values: row.len(), columns: self.schema.columns.len() },
            );
        }
        if self.count == TABLE_CAPACITY {
            return Err(DbError::TableFull);
        }
        let rid = RecordID {
            page_number: (self.count / SLOTS_PER_PAGE) as u32,
            slot_id: (self.count % SLOTS_PER_PAGE) as u8,
        };
        proof {
            assert(self.count / 256 < 0x1_0000_0000) by (nonlinear_arith)
                requires
                    self.count < 0x100_0000_0000,
            ;
            assert(self.count % 256 < 256);
            assert(rid == spec_rid(self.count));
        }
        let key = match self.pk_index {
            Some(i) => row[i],
            None => Value::Integer(self.count as i64),
        };
        match self.tree.insert(key, rid) {
            Err(e) => Err(e),
            Ok(()) => {
                self.count = self.count + 1;
                Ok(rid)
            },
        }
    }
}

} // verus!
