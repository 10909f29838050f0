//! An embedded relational storage core: a verified B+Tree index mapping
//! `Value` keys to `RecordID` row addresses, a table layer that validates
//! rows against their schema before insertion, and a database registry that
//! claims each table name at most once.
//!
//! The registry is sequential: it owns its tables and its factory outright
//! and is driven through `&mut self`, so exclusive ownership stands in for
//! the concurrent map and the factory mutex that a multi-threaded embedding
//! would use, and no lock can be poisoned. The at-most-one-winner rule for
//! a table name survives the change as the contract of `create_table`.

pub mod ast;
pub mod btree;
pub mod database;
pub mod errors;
pub mod table;
