//! Options for opening databases and beginning transactions.
use vstd::prelude::*;
use crate::merge::MergeOperator;

verus! {

/// Options that govern how a database is opened.
pub struct Options {
    pub create_if_missing: bool,
    pub create_missing_column_families: bool,
    pub error_if_exists: bool,
    pub merge_operator: Option<MergeOperator>,
    pub merge_operator_name: Option<String>,
}

impl Default for Options {
    fn default() -> (r: Options)
        ensures
            !r.create_if_missing,
            !r.create_missing_column_families,
            !r.error_if_exists,
            r.merge_operator.is_none(),
    {
        Options {
            create_if_missing: false,
            create_missing_column_families: false,
            error_if_exists: false,
            merge_operator: None,
            merge_operator_name: None,
        }
    }
}

impl Options {
    /// Create the database if it does not exist yet.
    pub fn create_if_missing(&mut self, v: bool)
        ensures
            final(self).create_if_missing == v,
            final(self).create_missing_column_families == old(self).create_missing_column_families,
            final(self).error_if_exists == old(self).error_if_exists,
            final(self).merge_operator == old(self).merge_operator,
    {
        self.create_if_missing = v;
    }

    /// Create the requested column families that do not exist yet.
    pub fn create_missing_column_families(&mut self, v: bool)
        ensures
            final(self).create_missing_column_families == v,
            final(self).create_if_missing == old(self).create_if_missing,
            final(self).error_if_exists == old(self).error_if_exists,
            final(self).merge_operator == old(self).merge_operator,
    {
        self.create_missing_column_families = v;
    }

    /// Fail to open a database that already exists.
    pub fn set_error_if_exists(&mut self, v: bool)
        ensures
            final(self).error_if_exists == v,
            final(self).create_if_missing == old(self).create_if_missing,
            final(self).create_missing_column_families == old(self).create_missing_column_families,
            final(self).merge_operator == old(self).merge_operator,
    {
        self.error_if_exists = v;
    }

    /// Registers an associative merge operator under a name.
    pub fn set_merge_operator_associative(&mut self, name: &str, op: MergeOperator)
        ensures
            final(self).merge_operator == Some(op),
            final(self).create_if_missing == old(self).create_if_missing,
            final(self).create_missing_column_families == old(self).create_missing_column_families,
            final(self).error_if_exists == old(self).error_if_exists,
    {
        self.merge_operator = Some(op);
        self.merge_operator_name = Some(String::from_str(name));
    }
}

/// Options of a single write.
#[derive(Clone, Copy, Debug, PartialEq, Eq, Structural)]
pub struct WriteOptions {
    /// Sync the log after the write.
    pub sync: bool,
}

impl Default for WriteOptions {
    fn default() -> (r: WriteOptions)
        ensures
            !r.sync,
    {
        WriteOptions { sync: false }
    }
}

/// Options of a database with pessimistic transactions.
#[derive(Clone, Copy, Debug, PartialEq, Eq, Structural)]
pub struct TransactionDBOptions {
    /// How long a transaction waits for a lock, in milliseconds; 0 fails at once.
    pub txn_lock_timeout: u64,
}

impl Default for TransactionDBOptions {
    fn default() -> (r: TransactionDBOptions)
        ensures
            r.txn_lock_timeout == 1000,
    {
        TransactionDBOptions { txn_lock_timeout: 1000 }
    }
}

impl TransactionDBOptions {
    pub fn set_txn_lock_timeout(&mut self, millis: u64)
        ensures
            final(self).txn_lock_timeout == millis,
    {
        self.txn_lock_timeout = millis;
    }
}

/// Options of one pessimistic transaction.
#[derive(Clone, Copy, Debug, PartialEq, Eq, Structural)]
pub struct TransactionOptions {
    /// Pin a snapshot when the transaction begins.
    pub set_snapshot: bool,
}

impl Default for TransactionOptions {
    fn default() -> (r: TransactionOptions)
        ensures
            !r.set_snapshot,
    {
        TransactionOptions { set_snapshot: false }
    }
}

impl TransactionOptions {
    pub fn new() -> (r: TransactionOptions)
        ensures
            !r.set_snapshot,
    {
        TransactionOptions { set_snapshot: false }
    }

    pub fn set_snapshot(&mut self, v: bool)
        ensures
            final(self).set_snapshot == v,
    {
        self.set_snapshot = v;
    }
}

/// Options of one optimistic transaction.
#[derive(Clone, Copy, Debug, PartialEq, Eq, Structural)]
pub struct OptimisticTransactionOptions {
    /// Pin a snapshot when the transaction begins.
    pub set_snapshot: bool,
}

impl Default for OptimisticTransactionOptions {
    fn default() -> (r: OptimisticTransactionOptions)
        ensures
            !r.set_snapshot,
    {
        OptimisticTransactionOptions { set_snapshot: false }
    }
}

impl OptimisticTransactionOptions {
    pub fn new() -> (r: OptimisticTransactionOptions)
        ensures
            !r.set_snapshot,
    {
        OptimisticTransactionOptions { set_snapshot: false }
    }

    pub fn set_snapshot(&mut self, v: bool)
        ensures
            final(self).set_snapshot == v,
    {
        self.set_snapshot = v;
    }
}

/// A column family to open, by name, with its options.
pub struct ColumnFamilyDescriptor {
    pub name: String,
    pub options: Options,
}

impl ColumnFamilyDescriptor {
    pub fn new(name: &str, options: Options) -> (r: ColumnFamilyDescriptor)
        ensures
            r.name@ == name@,
            r.options == options,
    {
        ColumnFamilyDescriptor { name: String::from_str(name), options }
    }
}

/// Turns column-family names into descriptors with default options.
pub fn convert_cfs_to_descriptors(cfs: &[&str]) -> (r: Vec<ColumnFamilyDescriptor>)
    ensures
        r@.len() == cfs@.len(),
        forall|i: int| 0 <= i < cfs@.len() ==> #[trigger] r@[i].name@ == cfs@[i]@,
        forall|i: int| 0 <= i < cfs@.len() ==> (#[trigger] r@[i]).options.merge_operator.is_none(),
{
    let mut r: Vec<ColumnFamilyDescriptor> = Vec::new();
    let mut i: usize = 0;
    while i < cfs.len()
        invariant
            i <= cfs@.len(),
            r@.len() == i,
            forall|j: int| 0 <= j < i ==> #[trigger] r@[j].name@ == cfs@[j]@,
            forall|j: int| 0 <= j < i ==> (#[trigger] r@[j]).options.merge_operator.is_none(),
        decreases cfs@.len() - i,
    {
        r.push(ColumnFamilyDescriptor::new(cfs[i], Options::default()));
        i = i + 1;
    }
    r
}

} // verus!
