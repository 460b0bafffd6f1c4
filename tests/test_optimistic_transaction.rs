use rocksdb::{
    Env, MergeOperator, OptimisticTransactionDB, OptimisticTransactionOptions, Options,
    TransactionBegin, TransactionBeginOpt, WriteOptions,
};

#[test]
fn test_optimistic_transactiondb() {
    let mut env = Env::new();
    let path = "_rust_rocksdb_optimistic_transaction_db";
    {
        let mut db = OptimisticTransactionDB::open_default(&mut env, path).unwrap();
        db.core.base_db.put(b"k1", b"v1").unwrap();
        assert_eq!(db.core.base_db.get(b"k1").unwrap().unwrap(), b"v1");
    }
}

#[test]
pub fn test_optimistic_transaction() {
    let mut env = Env::new();
    let path = "_rust_rocksdb_optimistic_transaction";
    {
        let mut db = OptimisticTransactionDB::open_default(&mut env, path).unwrap();

        let mut trans = db.transaction().unwrap();

        trans.put(&mut db.core, b"k1", b"v1").unwrap();
        trans.put(&mut db.core, b"k2", b"v2").unwrap();
        trans.put(&mut db.core, b"k3", b"v3").unwrap();
        trans.put(&mut db.core, b"k4", b"v4").unwrap();

        let trans_result = trans.commit(&mut db.core);

        assert_eq!(trans_result.is_ok(), true);

        let mut trans2 = db.transaction().unwrap();

        let mut iter = trans2.raw_iterator(&db.core).unwrap();

        iter.seek_to_first();

        assert_eq!(iter.valid(), true);
        assert_eq!(iter.key(), Some(b"k1".to_vec()));
        assert_eq!(iter.value(), Some(b"v1".to_vec()));

        iter.next();

        assert_eq!(iter.valid(), true);
        assert_eq!(iter.key(), Some(b"k2".to_vec()));
        assert_eq!(iter.value(), Some(b"v2".to_vec()));

        iter.next(); // k3
        iter.next(); // k4
        iter.next(); // invalid!

        assert_eq!(iter.valid(), false);
        assert_eq!(iter.key(), None);
        assert_eq!(iter.value(), None);

        let mut trans3 = db.transaction().unwrap();

        trans2.put(&mut db.core, b"k2", b"v5").unwrap();
        trans3.put(&mut db.core, b"k2", b"v6").unwrap();

        trans3.commit(&mut db.core).unwrap();

        trans2.commit(&mut db.core).unwrap_err();
    }
}

#[test]
pub fn test_optimistic_transaction_rollback_savepoint() {
    let mut env = Env::new();
    let path = "_rust_rocksdb_optimistic_transaction_rollback_savepoint";
    {
        let mut opts = Options::default();
        opts.create_if_missing(true);

        let mut db = OptimisticTransactionDB::open(&mut env, &opts, path).unwrap();
        let write_options = WriteOptions::default();
        let optimistic_transaction_options = OptimisticTransactionOptions::new();

        let mut trans1 = db.transaction_opt(&write_options, &optimistic_transaction_options).unwrap();
        let mut trans2 = db.transaction_opt(&write_options, &optimistic_transaction_options).unwrap();

        trans1.put(&mut db.core, b"k1", b"v1").unwrap();

        let k1_2 = trans2.get(&db.core, b"k1").unwrap();
        assert!(k1_2.is_none());

        trans1.commit(&mut db.core).unwrap();

        let k1_2 = trans2.get(&db.core, b"k1").unwrap().unwrap();
        assert_eq!(&*k1_2, b"v1");

        trans1.delete(&mut db.core, b"k1").unwrap();

        let k1_2 = trans2.get(&db.core, b"k1").unwrap().unwrap();
        assert_eq!(&*k1_2, b"v1");

        trans1.rollback(&mut db.core).unwrap();

        let k1_2 = trans2.get(&db.core, b"k1").unwrap().unwrap();
        assert_eq!(&*k1_2, b"v1");

        trans1.delete(&mut db.core, b"k1").unwrap();
        trans1.set_savepoint();
        trans1.put(&mut db.core, b"k2", b"v2").unwrap();
        trans1.rollback_to_savepoint(&mut db.core).unwrap();
        trans1.commit(&mut db.core).unwrap();

        let k1_2 = trans2.get(&db.core, b"k1").unwrap();
        assert!(k1_2.is_none());

        let k2_2 = trans2.get(&db.core, b"k2").unwrap();
        assert!(k2_2.is_none());

        trans2.commit(&mut db.core).unwrap();
    }
}

#[test]
pub fn test_optimistic_transaction_cf() {
    let mut env = Env::new();
    let path = "_rust_rocksdb_optimistic_transaction_cf";
    {
        let mut opts = Options::default();
        opts.create_if_missing(true);
        opts.create_missing_column_families(true);
        let mut db = OptimisticTransactionDB::open_cf(&mut env, &opts, path, &["cf1"]).unwrap();
        {
            let cf_handle = db.base().cf_handle("cf1").unwrap();
            let write_options = WriteOptions::default();
            let optimistic_transaction_options = OptimisticTransactionOptions::new();

            let mut trans = db.transaction_opt(&write_options, &optimistic_transaction_options).unwrap();

            trans.put_cf(&mut db.core, cf_handle, b"k1", b"v1").unwrap();
            trans.commit(&mut db.core).unwrap();

            let k1 = trans.get_cf(&db.core, cf_handle, b"k1").unwrap().unwrap();
            assert_eq!(&*k1, b"v1");

            trans.delete_cf(&mut db.core, cf_handle, b"k1").unwrap();
            trans.commit(&mut db.core).unwrap();
        }

        db.core.base_db.drop_cf("cf1").unwrap();
    }
}

#[test]
pub fn test_optimistic_transaction_snapshot() {
    let mut env = Env::new();
    let path = "_rust_rocksdb_optimistic_transaction_snapshot";
    {
        let mut opts = Options::default();
        opts.create_if_missing(true);
        let mut db = OptimisticTransactionDB::open(&mut env, &opts, path).unwrap();

        let write_options = WriteOptions::default();
        let optimistic_transaction_options = OptimisticTransactionOptions::new();
        let mut trans1 = db.transaction_opt(&write_options, &optimistic_transaction_options).unwrap();

        let mut optimistic_transaction_options_snapshot = OptimisticTransactionOptions::new();
        optimistic_transaction_options_snapshot.set_snapshot(true);
        // create transaction with snapshot
        let mut trans2 = db.transaction_opt(&write_options, &optimistic_transaction_options_snapshot).unwrap();

        trans1.put(&mut db.core, b"k1", b"v1").unwrap();

        let k1_2 = trans2.get(&db.core, b"k1").unwrap();
        assert!(k1_2.is_none());

        trans1.commit(&mut db.core).unwrap();

        trans2.commit(&mut db.core).unwrap();
        drop(trans2);

        let mut trans3 = db.transaction_opt(&write_options, &optimistic_transaction_options_snapshot).unwrap();

        trans1.delete(&mut db.core, b"k1").unwrap();
        trans1.commit(&mut db.core).unwrap();

        // Reads of a transaction that pinned a snapshot observe that snapshot.
        let k1_3 = trans3.get(&db.core, b"k1").unwrap().unwrap();
        assert_eq!(&*k1_3, b"v1");

        let k1_3 = db.base().get_at(&trans3.snapshot().unwrap(), b"k1").unwrap().unwrap();
        assert_eq!(&*k1_3, b"v1");

        trans3.commit(&mut db.core).unwrap();
        drop(trans3);

        let trans4 = db.transaction_opt(&write_options, &optimistic_transaction_options_snapshot).unwrap();

        let k1_4 = db.base().get_at(&trans4.snapshot().unwrap(), b"k1").unwrap();
        assert!(k1_4.is_none());

        let mut trans4 = trans4;
        trans4.commit(&mut db.core).unwrap();
    }
}

#[test]
pub fn test_optimistic_transaction_merge() {
    let mut env = Env::new();
    let path = "_rust_rocksdb_optimistic_transaction_merge";
    {
        let mut opts = Options::default();
        opts.create_if_missing(true);
        opts.set_merge_operator_associative("test operator", MergeOperator::Concat);
        let mut db = OptimisticTransactionDB::open(&mut env, &opts, path).unwrap();
        let mut trans = db.transaction().unwrap();

        trans.put(&mut db.core, b"k1", b"a").unwrap();
        trans.merge(&mut db.core, b"k1", b"b").unwrap();
        trans.merge(&mut db.core, b"k1", b"c").unwrap();
        trans.merge(&mut db.core, b"k1", b"d").unwrap();
        trans.merge(&mut db.core, b"k1", b"efg").unwrap();
        // The transaction reads its own pending operands folded onto its put.
        let pending = trans.get(&db.core, b"k1").unwrap().unwrap();
        assert_eq!(&*pending, b"abcdefg");
        trans.commit(&mut db.core).unwrap();

        let k1 = trans.get(&db.core, b"k1").unwrap().unwrap();
        assert_eq!(&*k1, b"abcdefg");

        trans.commit(&mut db.core).unwrap();
    }
}
