//! An embedded, ordered, transactional key-value store: column families
//! sharing one log and one sequence-number space, snapshots that pin a
//! sequence number, optimistic and pessimistic transactions with savepoints,
//! associative merge operators, and compaction that keeps every read a live
//! snapshot can make.
use vstd::prelude::*;

pub mod error;
pub mod bytes;
pub mod merge;
pub mod version;
pub mod storage;
pub mod options;
pub mod env;
pub mod open_util;
pub mod db;
pub mod transaction;
pub mod transaction_db;
pub mod laws;
pub mod iter;

pub use crate::db::{
    ColumnFamily, DBInner, DBUtils, DBWithTTL, ReadOnlyDB, SecondaryDB, Snapshot, WriteBatch, DB,
};
pub use crate::env::Env;
pub use crate::error::{Error, ErrorKind};
pub use crate::merge::MergeOperator;
pub use crate::open_util::{open_cf_descriptors_internal, AccessType};
pub use crate::options::{
    ColumnFamilyDescriptor, OptimisticTransactionOptions, Options, TransactionDBOptions,
    TransactionOptions, WriteOptions,
};
pub use crate::iter::{DBRawIterator, KeyValue};
pub use crate::storage::{LiveFile, UpdateBatch};
pub use crate::transaction::{Transaction, TxnStore};
pub use crate::transaction_db::{
    OptimisticTransactionDB, TransactionBegin, TransactionBeginOpt, TransactionDB,
};

verus! {

} // verus!
