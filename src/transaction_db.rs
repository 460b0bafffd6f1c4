//! Databases with optimistic or pessimistic transactions.
use vstd::prelude::*;
use crate::db::{create_if_missing_options, create_if_missing_spec, open_contract, DBInner};
use crate::env::Env;
use crate::error::Error;
use crate::open_util::{descriptor_ops, descriptor_names, lemma_family_op_default, AccessType};
use crate::options::{
    convert_cfs_to_descriptors, ColumnFamilyDescriptor, OptimisticTransactionOptions, Options,
    TransactionDBOptions, TransactionOptions, WriteOptions,
};
use crate::transaction::{began, Transaction, TxnStore};

verus! {

/// Beginning a transaction with default options.
pub trait TransactionBegin {
    spec fn inv(&self) -> bool;

    fn transaction(&mut self) -> (r: Result<Transaction, Error>)
        requires
            old(self).inv(),
        ensures
            final(self).inv(),
            r.is_ok() ==> r.unwrap().wf() && r.unwrap().writes@.len() == 0 && r.unwrap().savepoints@.len() == 0;
}

/// Beginning a transaction with the given options.
pub trait TransactionBeginOpt<TxOpts> {
    spec fn inv_opt(&self) -> bool;

    fn transaction_opt(&mut self, wrt_opts: &WriteOptions, tx_opts: TxOpts) -> (r: Result<Transaction, Error>)
        requires
            old(self).inv_opt(),
        ensures
            final(self).inv_opt(),
            r.is_ok() ==> r.unwrap().wf() && r.unwrap().writes@.len() == 0 && r.unwrap().savepoints@.len() == 0;
}

/// The result of an open, as the database it wraps.
pub open spec fn unwrap_store<T>(r: Result<T, Error>, f: spec_fn(T) -> TxnStore) -> Result<DBInner, Error> {
    match r {
        Ok(d) => Ok(f(d).base_db),
        Err(e) => Err(e),
    }
}

/// A database whose transactions validate at commit instead of locking.
pub struct OptimisticTransactionDB {
    pub core: TxnStore,
}

impl OptimisticTransactionDB {
    /// Closes the database: it is persisted and released.
    pub fn close(self, env: &mut Env)
        requires
            self.wf(),
            old(env).wf(),
        ensures
            final(env).wf(),
            final(env).index_of(self.core.base_db.path@).is_some(),
            final(env).dbs@[final(env).index_of(self.core.base_db.path@).unwrap()].storage.same(self.core.base_db.storage),
            !final(env).dbs@[final(env).index_of(self.core.base_db.path@).unwrap()].locked,
    {
        self.core.base_db.close(env);
    }

    pub open spec fn wf(&self) -> bool {
        &&& self.core.wf()
        &&& self.core.base_db.access == AccessType::ReadWrite
    }

    pub fn base(&self) -> (r: &DBInner)
        ensures
            *r == self.core.base_db,
    {
        &self.core.base_db
    }

    pub fn path(&self) -> (r: &str)
        ensures
            r@ == self.core.base_db.path@,
    {
        self.core.base_db.path()
    }

    fn open_cf_descriptors_internal(env: &mut Env, opts: &Options, path: &str, cfs: &Vec<ColumnFamilyDescriptor>) -> (r: Result<OptimisticTransactionDB, Error>)
        requires
            old(env).wf(),
        ensures
            open_contract(*old(env), *final(env), *opts, path@, descriptor_names(cfs@), descriptor_ops(cfs@), AccessType::ReadWrite,
                unwrap_store(r, |d: OptimisticTransactionDB| d.core)),
            r.is_ok() ==> r.unwrap().core.next_txn_id == 0 && r.unwrap().wf() && r.unwrap().core.locks@.len() == 0,
    {
        match DBInner::open_cf_descriptors_internal(env, opts, path, cfs, &AccessType::ReadWrite) {
            Ok(base_db) => Ok(OptimisticTransactionDB { core: TxnStore { base_db, locks: Vec::new(), next_txn_id: 0, lock_timeout: 0 } }),
            Err(e) => Err(e),
        }
    }

    /// Opens a database with default options, creating it if missing.
    pub fn open_default(env: &mut Env, path: &str) -> (r: Result<OptimisticTransactionDB, Error>)
        requires
            old(env).wf(),
        ensures
            open_contract(*old(env), *final(env), create_if_missing_spec(), path@, seq![], seq![], AccessType::ReadWrite,
                unwrap_store(r, |d: OptimisticTransactionDB| d.core)),
            r.is_ok() ==> r.unwrap().core.next_txn_id == 0 && r.unwrap().wf(),
    {
        let opts = create_if_missing_options();
        Self::open(env, &opts, path)
    }

    /// Opens the database with the specified options.
    pub fn open(env: &mut Env, opts: &Options, path: &str) -> (r: Result<OptimisticTransactionDB, Error>)
        requires
            old(env).wf(),
        ensures
            open_contract(*old(env), *final(env), *opts, path@, seq![], seq![], AccessType::ReadWrite,
                unwrap_store(r, |d: OptimisticTransactionDB| d.core)),
            r.is_ok() ==> r.unwrap().core.next_txn_id == 0 && r.unwrap().wf(),
    {
        let no_cfs: Vec<ColumnFamilyDescriptor> = Vec::new();
        assert(descriptor_names(no_cfs@) =~= seq![]);
        Self::open_cf_descriptors_internal(env, opts, path, &no_cfs)
    }

    /// Opens a database with the given options and column family names.
    pub fn open_cf(env: &mut Env, opts: &Options, path: &str, cfs: &[&str]) -> (r: Result<OptimisticTransactionDB, Error>)
        requires
            old(env).wf(),
        ensures
            open_contract(*old(env), *final(env), *opts, path@, cfs@.map_values(|n: &str| n@), seq![], AccessType::ReadWrite,
                unwrap_store(r, |d: OptimisticTransactionDB| d.core)),
            r.is_ok() ==> r.unwrap().core.next_txn_id == 0 && r.unwrap().wf(),
    {
        let descriptors = convert_cfs_to_descriptors(cfs);
        assert(descriptor_names(descriptors@) =~= cfs@.map_values(|n: &str| n@));
        proof { lemma_family_op_default(descriptor_names(descriptors@), descriptor_ops(descriptors@), opts.merge_operator); }
        Self::open_cf_descriptors_internal(env, opts, path, &descriptors)
    }

    /// Opens a database with the given options and column family descriptors.
    pub fn open_cf_descriptors(env: &mut Env, opts: &Options, path: &str, cfs: Vec<ColumnFamilyDescriptor>) -> (r: Result<OptimisticTransactionDB, Error>)
        requires
            old(env).wf(),
        ensures
            open_contract(*old(env), *final(env), *opts, path@, descriptor_names(cfs@), descriptor_ops(cfs@), AccessType::ReadWrite,
                unwrap_store(r, |d: OptimisticTransactionDB| d.core)),
            r.is_ok() ==> r.unwrap().core.next_txn_id == 0 && r.unwrap().wf(),
    {
        Self::open_cf_descriptors_internal(env, opts, path, &cfs)
    }
}

impl TransactionBegin for OptimisticTransactionDB {
    open spec fn inv(&self) -> bool {
        self.wf()
    }

    fn transaction(&mut self) -> (r: Result<Transaction, Error>)
        ensures
            began(old(self).core, final(self).core, true, false, r),
    {
        self.transaction_opt(&WriteOptions::default(), &OptimisticTransactionOptions::default())
    }
}

impl<'a> TransactionBeginOpt<&'a OptimisticTransactionOptions> for OptimisticTransactionDB {
    open spec fn inv_opt(&self) -> bool {
        self.wf()
    }

    fn transaction_opt(&mut self, wrt_opts: &WriteOptions, tx_opts: &'a OptimisticTransactionOptions) -> (r: Result<Transaction, Error>)
        ensures
            began(old(self).core, final(self).core, true, tx_opts.set_snapshot, r),
    {
        self.core.begin(true, tx_opts.set_snapshot)
    }
}

/// A database whose transactions lock the keys they write.
pub struct TransactionDB {
    pub core: TxnStore,
}

impl TransactionDB {
    /// Closes the database: it is persisted and released.
    pub fn close(self, env: &mut Env)
        requires
            self.wf(),
            old(env).wf(),
        ensures
            final(env).wf(),
            final(env).index_of(self.core.base_db.path@).is_some(),
            final(env).dbs@[final(env).index_of(self.core.base_db.path@).unwrap()].storage.same(self.core.base_db.storage),
            !final(env).dbs@[final(env).index_of(self.core.base_db.path@).unwrap()].locked,
    {
        self.core.base_db.close(env);
    }

    pub open spec fn wf(&self) -> bool {
        &&& self.core.wf()
        &&& self.core.base_db.access == AccessType::ReadWrite
    }

    pub fn base(&self) -> (r: &DBInner)
        ensures
            *r == self.core.base_db,
    {
        &self.core.base_db
    }

    pub fn path(&self) -> (r: &str)
        ensures
            r@ == self.core.base_db.path@,
    {
        self.core.base_db.path()
    }

    fn open_cf_descriptors_internal(env: &mut Env, opts: &Options, path: &str, cfs: &Vec<ColumnFamilyDescriptor>, txopts: &TransactionDBOptions) -> (r: Result<TransactionDB, Error>)
        requires
            old(env).wf(),
        ensures
            open_contract(*old(env), *final(env), *opts, path@, descriptor_names(cfs@), descriptor_ops(cfs@), AccessType::ReadWrite,
                unwrap_store(r, |d: TransactionDB| d.core)),
            r.is_ok() ==> r.unwrap().core.next_txn_id == 0 && r.unwrap().wf() && r.unwrap().core.locks@.len() == 0 && r.unwrap().core.lock_timeout == txopts.txn_lock_timeout,
    {
        match DBInner::open_cf_descriptors_internal(env, opts, path, cfs, &AccessType::ReadWrite) {
            Ok(base_db) => Ok(TransactionDB { core: TxnStore { base_db, locks: Vec::new(), next_txn_id: 0, lock_timeout: txopts.txn_lock_timeout } }),
            Err(e) => Err(e),
        }
    }

    /// Opens a database with default options, creating it if missing.
    pub fn open_default(env: &mut Env, path: &str) -> (r: Result<TransactionDB, Error>)
        requires
            old(env).wf(),
        ensures
            open_contract(*old(env), *final(env), create_if_missing_spec(), path@, seq![], seq![], AccessType::ReadWrite,
                unwrap_store(r, |d: TransactionDB| d.core)),
            r.is_ok() ==> r.unwrap().core.next_txn_id == 0 && r.unwrap().wf() && r.unwrap().core.locks@.len() == 0,
    {
        let opts = create_if_missing_options();
        Self::open(env, &opts, path)
    }

    /// Opens the database with the specified options.
    pub fn open(env: &mut Env, opts: &Options, path: &str) -> (r: Result<TransactionDB, Error>)
        requires
            old(env).wf(),
        ensures
            open_contract(*old(env), *final(env), *opts, path@, seq![], seq![], AccessType::ReadWrite,
                unwrap_store(r, |d: TransactionDB| d.core)),
            r.is_ok() ==> r.unwrap().core.next_txn_id == 0 && r.unwrap().wf() && r.unwrap().core.locks@.len() == 0,
    {
        let no_cfs: [&str; 0] = [];
        assert(no_cfs@.map_values(|n: &str| n@) =~= seq![]);
        Self::open_cf(env, opts, path, &no_cfs)
    }

    /// Opens the database with the specified options and transaction options.
    pub fn open_opt(env: &mut Env, opts: &Options, path: &str, txopts: &TransactionDBOptions) -> (r: Result<TransactionDB, Error>)
        requires
            old(env).wf(),
        ensures
            open_contract(*old(env), *final(env), *opts, path@, seq![], seq![], AccessType::ReadWrite,
                unwrap_store(r, |d: TransactionDB| d.core)),
            r.is_ok() ==> r.unwrap().core.next_txn_id == 0 && r.unwrap().wf() && r.unwrap().core.locks@.len() == 0 && r.unwrap().core.lock_timeout == txopts.txn_lock_timeout,
    {
        let no_cfs: [&str; 0] = [];
        assert(no_cfs@.map_values(|n: &str| n@) =~= seq![]);
        Self::open_cf_opt(env, opts, path, &no_cfs, txopts)
    }

    /// Opens a database with the given options and column family names.
    pub fn open_cf(env: &mut Env, opts: &Options, path: &str, cfs: &[&str]) -> (r: Result<TransactionDB, Error>)
        requires
            old(env).wf(),
        ensures
            open_contract(*old(env), *final(env), *opts, path@, cfs@.map_values(|n: &str| n@), seq![], AccessType::ReadWrite,
                unwrap_store(r, |d: TransactionDB| d.core)),
            r.is_ok() ==> r.unwrap().core.next_txn_id == 0 && r.unwrap().wf() && r.unwrap().core.locks@.len() == 0,
    {
        let txopts = TransactionDBOptions::default();
        Self::open_cf_opt(env, opts, path, cfs, &txopts)
    }

    /// Opens a database with the given options, column family names and transaction options.
    pub fn open_cf_opt(env: &mut Env, opts: &Options, path: &str, cfs: &[&str], txopts: &TransactionDBOptions) -> (r: Result<TransactionDB, Error>)
        requires
            old(env).wf(),
        ensures
            open_contract(*old(env), *final(env), *opts, path@, cfs@.map_values(|n: &str| n@), seq![], AccessType::ReadWrite,
                unwrap_store(r, |d: TransactionDB| d.core)),
            r.is_ok() ==> r.unwrap().core.next_txn_id == 0 && r.unwrap().wf() && r.unwrap().core.locks@.len() == 0 && r.unwrap().core.lock_timeout == txopts.txn_lock_timeout,
    {
        let descriptors = convert_cfs_to_descriptors(cfs);
        assert(descriptor_names(descriptors@) =~= cfs@.map_values(|n: &str| n@));
        proof { lemma_family_op_default(descriptor_names(descriptors@), descriptor_ops(descriptors@), opts.merge_operator); }
        Self::open_cf_descriptors_internal(env, opts, path, &descriptors, txopts)
    }

    /// Opens a database with the given options and column family descriptors.
    pub fn open_cf_descriptors(env: &mut Env, opts: &Options, path: &str, cfs: Vec<ColumnFamilyDescriptor>) -> (r: Result<TransactionDB, Error>)
        requires
            old(env).wf(),
        ensures
            open_contract(*old(env), *final(env), *opts, path@, descriptor_names(cfs@), descriptor_ops(cfs@), AccessType::ReadWrite,
                unwrap_store(r, |d: TransactionDB| d.core)),
            r.is_ok() ==> r.unwrap().core.next_txn_id == 0 && r.unwrap().wf() && r.unwrap().core.locks@.len() == 0,
    {
        let txopts = TransactionDBOptions::default();
        Self::open_cf_descriptors_internal(env, opts, path, &cfs, &txopts)
    }
}

impl TransactionBegin for TransactionDB {
    open spec fn inv(&self) -> bool {
        self.wf()
    }

    fn transaction(&mut self) -> (r: Result<Transaction, Error>)
        ensures
            began(old(self).core, final(self).core, false, false, r),
    {
        self.transaction_opt(&WriteOptions::default(), &TransactionOptions::default())
    }
}

impl<'a> TransactionBeginOpt<&'a TransactionOptions> for TransactionDB {
    open spec fn inv_opt(&self) -> bool {
        self.wf()
    }

    fn transaction_opt(&mut self, wrt_opts: &WriteOptions, tx_opts: &'a TransactionOptions) -> (r: Result<Transaction, Error>)
        ensures
            began(old(self).core, final(self).core, false, tx_opts.set_snapshot, r),
    {
        self.core.begin(false, tx_opts.set_snapshot)
    }
}

} // verus!
