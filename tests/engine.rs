use rocksdb::{
    ColumnFamilyDescriptor, DBUtils, Env, ErrorKind, MergeOperator, OptimisticTransactionDB,
    OptimisticTransactionOptions, Options, ReadOnlyDB, SecondaryDB, TransactionBegin,
    TransactionBeginOpt, TransactionDB, TransactionDBOptions, TransactionOptions, WriteBatch,
    WriteOptions, DB,
};

fn create_opts() -> Options {
    let mut opts = Options::default();
    opts.create_if_missing(true);
    opts
}

#[test]
fn latest_write_wins_for_puts_and_deletes() {
    let mut env = Env::new();
    let mut db = DB::open_default(&mut env, "latest").unwrap();
    db.inner.put(b"k", b"one").unwrap();
    assert_eq!(db.inner.get(b"k").unwrap(), Some(b"one".to_vec()));
    db.inner.put(b"k", b"two").unwrap();
    assert_eq!(db.inner.get(b"k").unwrap(), Some(b"two".to_vec()));
    db.inner.delete(b"k").unwrap();
    assert_eq!(db.inner.get(b"k").unwrap(), None);
    db.inner.put(b"k", b"three").unwrap();
    assert_eq!(db.inner.get(b"k").unwrap(), Some(b"three".to_vec()));
    assert_eq!(db.inner.latest_sequence_number(), 4);
}

#[test]
fn snapshot_never_sees_later_writes() {
    let mut env = Env::new();
    let mut db = DB::open_default(&mut env, "isolation").unwrap();
    db.inner.put(b"k", b"old").unwrap();
    let s1 = db.inner.create_snapshot().unwrap();
    let s2 = db.inner.create_snapshot().unwrap();
    db.inner.put(b"k", b"new").unwrap();
    db.inner.put(b"other", b"x").unwrap();
    assert_eq!(db.inner.get_at(&s1, b"k").unwrap(), Some(b"old".to_vec()));
    assert_eq!(db.inner.get_at(&s1, b"other").unwrap(), None);
    assert_eq!(db.inner.get_at(&s2, b"k").unwrap(), db.inner.get_at(&s1, b"k").unwrap());
    assert_eq!(db.inner.get(b"k").unwrap(), Some(b"new".to_vec()));
}

#[test]
fn released_snapshot_is_refused() {
    let mut env = Env::new();
    let mut db = DB::open_default(&mut env, "snap").unwrap();
    let s = db.inner.create_snapshot().unwrap();
    db.inner.release_snapshot(s).unwrap();
    assert_eq!(db.inner.release_snapshot(s).unwrap_err().kind, ErrorKind::InvalidOperation);
    assert_eq!(db.inner.get_at(&s, b"k").unwrap_err().kind, ErrorKind::InvalidOperation);
}

#[test]
fn optimistic_conflict_on_watched_key() {
    let mut env = Env::new();
    let mut db = OptimisticTransactionDB::open_default(&mut env, "conflict").unwrap();
    let mut t1 = db.transaction().unwrap();
    let mut t2 = db.transaction().unwrap();
    let cf = db.base().default_cf();
    assert_eq!(t2.get_for_update_cf(&mut db.core, cf, b"k").unwrap(), None);
    t1.put(&mut db.core, b"k", b"t1").unwrap();
    t1.commit(&mut db.core).unwrap();
    t2.put(&mut db.core, b"k", b"t2").unwrap();
    assert_eq!(t2.commit(&mut db.core).unwrap_err().kind, ErrorKind::Conflict);
    assert_eq!(db.base().get(b"k").unwrap(), Some(b"t1".to_vec()));
}

#[test]
fn optimistic_commit_independent_of_other_keys() {
    let mut env = Env::new();
    let mut db = OptimisticTransactionDB::open_default(&mut env, "independent").unwrap();
    let mut t1 = db.transaction().unwrap();
    let mut t2 = db.transaction().unwrap();
    t2.put(&mut db.core, b"a", b"t2").unwrap();
    t1.put(&mut db.core, b"b", b"t1").unwrap();
    t1.commit(&mut db.core).unwrap();
    t2.commit(&mut db.core).unwrap();
    assert_eq!(db.base().get(b"a").unwrap(), Some(b"t2".to_vec()));
    assert_eq!(db.base().get(b"b").unwrap(), Some(b"t1".to_vec()));
}

#[test]
fn pessimistic_second_writer_waits_for_first() {
    let mut env = Env::new();
    let mut txopts = TransactionDBOptions::default();
    txopts.set_txn_lock_timeout(0);
    let mut opts = create_opts();
    opts.set_merge_operator_associative("concat", MergeOperator::Concat);
    let mut db = TransactionDB::open_opt(&mut env, &opts, "locking", &txopts).unwrap();
    let mut t1 = db.transaction().unwrap();
    let mut t2 = db.transaction().unwrap();
    t1.put(&mut db.core, b"k", b"base").unwrap();
    assert_eq!(t2.merge(&mut db.core, b"k", b"+more").unwrap_err().kind, ErrorKind::Busy);
    t1.commit(&mut db.core).unwrap();
    t2.merge(&mut db.core, b"k", b"+more").unwrap();
    t2.commit(&mut db.core).unwrap();
    assert_eq!(db.base().get(b"k").unwrap(), Some(b"base+more".to_vec()));
}

#[test]
fn pessimistic_lock_with_timeout_times_out() {
    let mut env = Env::new();
    let mut db = TransactionDB::open_default(&mut env, "timeout").unwrap();
    let mut t1 = db.transaction_opt(&WriteOptions::default(), &TransactionOptions::new()).unwrap();
    let mut t2 = db.transaction().unwrap();
    t1.put(&mut db.core, b"k", b"v").unwrap();
    assert_eq!(t2.put(&mut db.core, b"k", b"w").unwrap_err().kind, ErrorKind::TimedOut);
    t1.rollback(&mut db.core).unwrap();
    t2.put(&mut db.core, b"k", b"w").unwrap();
    t2.commit(&mut db.core).unwrap();
    assert_eq!(db.base().get(b"k").unwrap(), Some(b"w".to_vec()));
}

#[test]
fn savepoint_rollback_keeps_earlier_writes() {
    let mut env = Env::new();
    let mut db = TransactionDB::open_default(&mut env, "savepoint").unwrap();
    let mut t = db.transaction().unwrap();
    t.put(&mut db.core, b"k1", b"v1").unwrap();
    t.set_savepoint();
    t.put(&mut db.core, b"k2", b"v2").unwrap();
    t.rollback_to_savepoint(&mut db.core).unwrap();
    t.commit(&mut db.core).unwrap();
    assert_eq!(db.base().get(b"k1").unwrap(), Some(b"v1".to_vec()));
    assert_eq!(db.base().get(b"k2").unwrap(), None);
    // The lock on k2 was released by the rollback.
    let mut other = db.transaction().unwrap();
    other.put(&mut db.core, b"k2", b"x").unwrap();
}

#[test]
fn rollback_to_savepoint_without_one_fails() {
    let mut env = Env::new();
    let mut db = OptimisticTransactionDB::open_default(&mut env, "no_savepoint").unwrap();
    let mut t = db.transaction().unwrap();
    assert_eq!(t.rollback_to_savepoint(&mut db.core).unwrap_err().kind, ErrorKind::InvalidOperation);
}

#[test]
fn transaction_reads_its_own_writes() {
    let mut env = Env::new();
    let mut db = OptimisticTransactionDB::open_default(&mut env, "ryw").unwrap();
    let mut t = db.transaction().unwrap();
    t.put(&mut db.core, b"k", b"mine").unwrap();
    assert_eq!(t.get(&db.core, b"k").unwrap(), Some(b"mine".to_vec()));
    assert_eq!(db.base().get(b"k").unwrap(), None);
    t.delete(&mut db.core, b"k").unwrap();
    assert_eq!(t.get(&db.core, b"k").unwrap(), None);
}

#[test]
fn merge_survives_compaction() {
    let mut env = Env::new();
    let mut opts = create_opts();
    opts.set_merge_operator_associative("concat", MergeOperator::Concat);
    let mut db = DB::open(&mut env, &opts, "merge_compaction").unwrap();
    db.inner.put(b"k", b"a").unwrap();
    db.inner.merge(b"k", b"b").unwrap();
    db.inner.merge(b"k", b"c").unwrap();
    db.inner.merge(b"k", b"d").unwrap();
    assert_eq!(db.inner.get(b"k").unwrap(), Some(b"abcd".to_vec()));
    db.inner.compact().unwrap();
    assert_eq!(db.inner.get(b"k").unwrap(), Some(b"abcd".to_vec()));
    let files = db.inner.live_files().unwrap();
    assert_eq!(files.len(), 1);
    assert_eq!(files[0].level, 1);
    assert_eq!(files[0].num_entries, 1);
}

#[test]
fn append_operator_uses_delimiter() {
    let mut env = Env::new();
    let mut opts = create_opts();
    opts.set_merge_operator_associative("append", MergeOperator::Append(b','));
    let mut db = DB::open(&mut env, &opts, "append").unwrap();
    db.inner.merge(b"k", b"a").unwrap();
    db.inner.merge(b"k", b"b").unwrap();
    assert_eq!(db.inner.get(b"k").unwrap(), Some(b"a,b".to_vec()));
}

#[test]
fn merge_without_operator_is_refused() {
    let mut env = Env::new();
    let mut db = DB::open_default(&mut env, "nomerge").unwrap();
    assert_eq!(db.inner.merge(b"k", b"a").unwrap_err().kind, ErrorKind::InvalidOperation);
    assert_eq!(db.inner.latest_sequence_number(), 0);
}

#[test]
fn unresolvable_merge_is_corruption() {
    let mut env = Env::new();
    let mut opts = create_opts();
    opts.set_merge_operator_associative("concat", MergeOperator::Concat);
    let mut db = DB::open(&mut env, &opts, "corrupt").unwrap();
    db.inner.merge(b"k", b"a").unwrap();
    db.inner.close(&mut env);
    let db = DB::open(&mut env, &create_opts(), "corrupt").unwrap();
    assert_eq!(db.inner.get(b"k").unwrap_err().kind, ErrorKind::Corruption);
}

#[test]
fn compaction_keeps_snapshot_reads_and_drops_tombstones() {
    let mut env = Env::new();
    let mut db = DB::open_default(&mut env, "compact").unwrap();
    db.inner.put(b"k", b"v1").unwrap();
    let s = db.inner.create_snapshot().unwrap();
    db.inner.put(b"k", b"v2").unwrap();
    db.inner.put(b"gone", b"x").unwrap();
    db.inner.delete(b"gone").unwrap();
    db.inner.compact().unwrap();
    assert_eq!(db.inner.get_at(&s, b"k").unwrap(), Some(b"v1".to_vec()));
    assert_eq!(db.inner.get(b"k").unwrap(), Some(b"v2".to_vec()));
    db.inner.release_snapshot(s).unwrap();
    db.inner.compact().unwrap();
    assert_eq!(db.inner.get(b"k").unwrap(), Some(b"v2".to_vec()));
    assert_eq!(db.inner.get(b"gone").unwrap(), None);
    let files = db.inner.live_files().unwrap();
    assert_eq!(files.len(), 1);
    assert_eq!(files[0].num_entries, 1);
    assert_eq!(files[0].num_deletions, 0);
    assert_eq!(db.inner.get_updates_since(2).unwrap_err().kind, ErrorKind::OutOfRange);
    assert_eq!(db.inner.get_updates_since(5).unwrap().len(), 0);
}

#[test]
fn live_files_describe_flushed_tables() {
    let mut env = Env::new();
    let mut db = DB::open_default(&mut env, "files").unwrap();
    db.inner.put(b"k2", b"v").unwrap();
    db.inner.put(b"k1", b"vv").unwrap();
    db.inner.delete(b"k3").unwrap();
    assert_eq!(db.inner.live_files().unwrap().len(), 0);
    db.inner.flush().unwrap();
    let files = db.inner.live_files().unwrap();
    assert_eq!(files.len(), 1);
    assert_eq!(files[0].level, 0);
    assert_eq!(files[0].num_entries, 3);
    assert_eq!(files[0].num_deletions, 1);
    assert_eq!(files[0].start_key, Some(b"k1".to_vec()));
    assert_eq!(files[0].end_key, Some(b"k3".to_vec()));
    assert_eq!(files[0].size, 9);
}

#[test]
fn updates_since_lists_later_records() {
    let mut env = Env::new();
    let mut db = DB::open_default(&mut env, "wal").unwrap();
    db.inner.put(b"a", b"1").unwrap();
    db.inner.put(b"b", b"2").unwrap();
    db.inner.put(b"c", b"3").unwrap();
    let mut batch = WriteBatch::new();
    batch.put(b"d", b"4");
    batch.delete(b"a");
    db.inner.write(batch).unwrap();
    let batches = db.inner.get_updates_since(2).unwrap();
    assert_eq!(batches.len(), 3);
    assert_eq!(batches[0].seq, 2);
    assert_eq!(batches[0].records[0].key, b"b".to_vec());
    assert_eq!(batches[1].seq, 3);
    assert_eq!(batches[2].seq, 4);
    assert_eq!(batches[2].records.len(), 2);
}

#[test]
fn cancelled_background_work_refuses_compaction() {
    let mut env = Env::new();
    let mut db = DB::open_default(&mut env, "cancel").unwrap();
    db.inner.cancel_all_background_work(true);
    assert_eq!(db.inner.compact().unwrap_err().kind, ErrorKind::InvalidOperation);
    assert_eq!(db.inner.flush().unwrap_err().kind, ErrorKind::InvalidOperation);
}

#[test]
fn column_family_catalog_round_trip() {
    let mut env = Env::new();
    let mut opts = create_opts();
    opts.create_missing_column_families(true);
    let db = DB::open_cf(&mut env, &opts, "catalog", &["cf1"]).unwrap();
    db.inner.close(&mut env);
    let names = DBUtils::list_cf(&env, &Options::default(), "catalog").unwrap();
    assert_eq!(names, vec!["default".to_string(), "cf1".to_string()]);
    assert_eq!(DB::open(&mut env, &Options::default(), "catalog").err().unwrap().kind, ErrorKind::InvalidOperation);
    let db = DB::open_cf(&mut env, &Options::default(), "catalog", &["cf1"]).unwrap();
    assert!(db.inner.cf_handle("cf1").is_some());
    db.inner.close(&mut env);
    let ro = ReadOnlyDB::open(&mut env, &Options::default(), "catalog", false).unwrap();
    assert!(ro.base().cf_handle("cf1").is_none());
    assert!(ro.base().cf_handle("default").is_some());
    let ro = ReadOnlyDB::open_cf(&mut env, &Options::default(), "catalog", &["cf1"], false).unwrap();
    assert!(ro.base().cf_handle("cf1").is_some());
}

#[test]
fn open_errors() {
    let mut env = Env::new();
    assert_eq!(DB::open(&mut env, &Options::default(), "none").err().unwrap().kind, ErrorKind::NotFound);
    let db = DB::open_default(&mut env, "exists").unwrap();
    assert_eq!(DB::open_default(&mut env, "exists").err().unwrap().kind, ErrorKind::Busy);
    db.inner.close(&mut env);
    let mut opts = create_opts();
    opts.set_error_if_exists(true);
    assert_eq!(DB::open(&mut env, &opts, "exists").err().unwrap().kind, ErrorKind::AlreadyExists);
    assert_eq!(DB::open_cf(&mut env, &create_opts(), "exists", &["a", "a"]).err().unwrap().kind, ErrorKind::InvalidOperation);
    assert_eq!(DB::open_cf(&mut env, &create_opts(), "exists", &["missing"]).err().unwrap().kind, ErrorKind::InvalidOperation);
    let cfs = vec![ColumnFamilyDescriptor::new("default", Options::default())];
    assert!(DB::open_cf_descriptors(&mut env, &Options::default(), "exists", cfs).is_ok());
}

#[test]
fn read_only_handle_rejects_writes() {
    let mut env = Env::new();
    let mut db = DB::open_default(&mut env, "ro").unwrap();
    db.inner.put(b"k", b"v").unwrap();
    db.inner.close(&mut env);
    assert_eq!(ReadOnlyDB::open(&mut env, &Options::default(), "ro", true).err().unwrap().kind, ErrorKind::InvalidOperation);
    let ro = ReadOnlyDB::open(&mut env, &Options::default(), "ro", false).unwrap();
    assert_eq!(ro.base().get(b"k").unwrap(), Some(b"v".to_vec()));
    let mut inner = ro.inner;
    assert_eq!(inner.put(b"k", b"w").unwrap_err().kind, ErrorKind::InvalidOperation);
    assert_eq!(ReadOnlyDB::open(&mut env, &Options::default(), "absent", false).err().unwrap().kind, ErrorKind::NotFound);
}

#[test]
fn secondary_catches_up_with_primary() {
    let mut env = Env::new();
    let mut primary = DB::open_default(&mut env, "primary").unwrap();
    primary.inner.put(b"k", b"v1").unwrap();
    primary.inner.persist(&mut env).unwrap();
    let mut secondary = SecondaryDB::open(&mut env, &Options::default(), "primary", "secondary").unwrap();
    assert_eq!(secondary.base().get(b"k").unwrap(), Some(b"v1".to_vec()));
    primary.inner.put(b"k", b"v2").unwrap();
    primary.inner.persist(&mut env).unwrap();
    assert_eq!(secondary.base().get(b"k").unwrap(), Some(b"v1".to_vec()));
    secondary.try_catch_up_with_primary(&env).unwrap();
    assert_eq!(secondary.base().get(b"k").unwrap(), Some(b"v2".to_vec()));
    secondary.try_catch_up_with_primary(&env).unwrap();
    assert_eq!(secondary.base().get(b"k").unwrap(), Some(b"v2".to_vec()));
}

#[test]
fn destroy_and_repair() {
    let mut env = Env::new();
    let mut db = DB::open_default(&mut env, "d").unwrap();
    db.inner.put(b"k", b"v").unwrap();
    assert_eq!(DBUtils::destroy(&mut env, &Options::default(), "d").unwrap_err().kind, ErrorKind::Busy);
    db.inner.close(&mut env);
    DBUtils::repair(&mut env, &Options::default(), "d").unwrap();
    let db = DB::open(&mut env, &Options::default(), "d").unwrap();
    assert_eq!(db.inner.live_files().unwrap().len(), 1);
    assert_eq!(db.inner.get(b"k").unwrap(), Some(b"v".to_vec()));
    db.inner.close(&mut env);
    DBUtils::destroy(&mut env, &Options::default(), "d").unwrap();
    assert_eq!(DBUtils::list_cf(&env, &Options::default(), "d").unwrap_err().kind, ErrorKind::NotFound);
    assert_eq!(DBUtils::repair(&mut env, &Options::default(), "d").unwrap_err().kind, ErrorKind::NotFound);
}

#[test]
fn column_family_management_errors() {
    let mut env = Env::new();
    let mut db = DB::open_default(&mut env, "cfs").unwrap();
    let cf = db.inner.create_cf("cf1").unwrap();
    assert_eq!(db.inner.create_cf("cf1").unwrap_err().kind, ErrorKind::AlreadyExists);
    db.inner.put_cf(cf, b"k", b"in-cf1").unwrap();
    assert_eq!(db.inner.get(b"k").unwrap(), None);
    assert_eq!(db.inner.get_cf(cf, b"k").unwrap(), Some(b"in-cf1".to_vec()));
    assert_eq!(db.inner.drop_cf("default").unwrap_err().kind, ErrorKind::InvalidOperation);
    assert_eq!(db.inner.drop_cf("nope").unwrap_err().kind, ErrorKind::NotFound);
    db.inner.drop_cf("cf1").unwrap();
    assert_eq!(db.inner.put_cf(cf, b"k", b"x").unwrap_err().kind, ErrorKind::InvalidOperation);
}

#[test]
fn write_batch_is_atomic() {
    let mut env = Env::new();
    let mut db = DB::open_default(&mut env, "batch").unwrap();
    let cf = db.inner.create_cf("cf1").unwrap();
    db.inner.drop_cf("cf1").unwrap();
    let mut batch = WriteBatch::new();
    batch.put(b"a", b"1");
    batch.put_cf(cf, b"b", b"2");
    assert_eq!(db.inner.write(batch).unwrap_err().kind, ErrorKind::InvalidOperation);
    assert_eq!(db.inner.get(b"a").unwrap(), None);
    let mut batch = WriteBatch::new();
    batch.put(b"a", b"1");
    batch.delete(b"b");
    assert_eq!(db.inner.write(batch).unwrap(), 1);
    assert_eq!(db.inner.get(b"a").unwrap(), Some(b"1".to_vec()));
}

#[test]
fn iteration_is_in_key_order() {
    let mut env = Env::new();
    let mut db = DB::open_default(&mut env, "iter").unwrap();
    db.inner.put(b"b", b"2").unwrap();
    db.inner.put(b"a", b"1").unwrap();
    db.inner.put(b"c", b"3").unwrap();
    db.inner.put(b"ab", b"x").unwrap();
    db.inner.delete(b"c").unwrap();
    let mut it = db.inner.raw_iterator().unwrap();
    assert!(!it.valid());
    it.seek_to_first();
    let mut keys = Vec::new();
    while it.valid() {
        keys.push(it.key().unwrap());
        it.next();
    }
    assert_eq!(keys, vec![b"a".to_vec(), b"ab".to_vec(), b"b".to_vec()]);
    it.seek_to_last();
    assert_eq!(it.value(), Some(b"2".to_vec()));
    it.prev();
    assert_eq!(it.key(), Some(b"ab".to_vec()));
}

#[test]
fn pending_merge_in_transaction_is_folded() {
    let mut env = Env::new();
    let mut opts = create_opts();
    opts.set_merge_operator_associative("concat", MergeOperator::Concat);
    let mut db = OptimisticTransactionDB::open(&mut env, &opts, "pending").unwrap();
    let mut t = db.transaction_opt(&WriteOptions::default(), &OptimisticTransactionOptions::new()).unwrap();
    db.core.base_db.put(b"k", b"base").unwrap();
    t.merge(&mut db.core, b"k", b"+x").unwrap();
    t.merge(&mut db.core, b"k", b"+y").unwrap();
    assert_eq!(t.get(&db.core, b"k").unwrap(), Some(b"base+x+y".to_vec()));
    assert_eq!(db.base().get(b"k").unwrap(), Some(b"base".to_vec()));
}

#[test]
fn crossed_lock_requests_fail_instead_of_deadlocking() {
    let mut env = Env::new();
    let mut txopts = TransactionDBOptions::default();
    txopts.set_txn_lock_timeout(0);
    let mut db = TransactionDB::open_opt(&mut env, &create_opts(), "crossed", &txopts).unwrap();
    let mut t1 = db.transaction().unwrap();
    let mut t2 = db.transaction().unwrap();
    t1.put(&mut db.core, b"a", b"1").unwrap();
    t2.put(&mut db.core, b"b", b"2").unwrap();
    assert_eq!(t1.put(&mut db.core, b"b", b"1").unwrap_err().kind, ErrorKind::Busy);
    assert_eq!(t2.put(&mut db.core, b"a", b"2").unwrap_err().kind, ErrorKind::Busy);
    t1.commit(&mut db.core).unwrap();
    t2.put(&mut db.core, b"a", b"2").unwrap();
    t2.commit(&mut db.core).unwrap();
    assert_eq!(db.base().get(b"a").unwrap(), Some(b"2".to_vec()));
    assert_eq!(db.base().get(b"b").unwrap(), Some(b"2".to_vec()));
}

#[test]
fn transaction_snapshot_pins_reads() {
    let mut env = Env::new();
    let mut db = OptimisticTransactionDB::open_default(&mut env, "pinned").unwrap();
    db.core.base_db.put(b"k", b"before").unwrap();
    let mut with_snapshot = OptimisticTransactionOptions::new();
    with_snapshot.set_snapshot(true);
    let mut t = db.transaction_opt(&WriteOptions::default(), &with_snapshot).unwrap();
    db.core.base_db.put(b"k", b"after").unwrap();
    assert_eq!(t.get(&db.core, b"k").unwrap(), Some(b"before".to_vec()));
    let mut it = t.raw_iterator(&db.core).unwrap();
    it.seek_to_first();
    assert_eq!(it.value(), Some(b"before".to_vec()));
}

#[test]
fn compaction_removes_dropped_families() {
    let mut env = Env::new();
    let mut db = DB::open_default(&mut env, "dropped").unwrap();
    let cf = db.inner.create_cf("cf1").unwrap();
    db.inner.put_cf(cf, b"k", b"gone soon").unwrap();
    db.inner.put(b"k", b"stays").unwrap();
    db.inner.drop_cf("cf1").unwrap();
    assert_eq!(db.inner.get_cf(cf, b"k").unwrap(), Some(b"gone soon".to_vec()));
    db.inner.compact().unwrap();
    assert_eq!(db.inner.get_cf(cf, b"k").unwrap(), None);
    assert_eq!(db.inner.get(b"k").unwrap(), Some(b"stays".to_vec()));
    assert_eq!(db.inner.live_files().unwrap()[0].num_entries, 1);
}

#[test]
fn transaction_iterator_includes_own_writes() {
    let mut env = Env::new();
    let mut db = OptimisticTransactionDB::open_default(&mut env, "txn_iter").unwrap();
    db.core.base_db.put(b"a", b"1").unwrap();
    db.core.base_db.put(b"c", b"3").unwrap();
    let mut t = db.transaction().unwrap();
    t.put(&mut db.core, b"b", b"2").unwrap();
    t.delete(&mut db.core, b"c").unwrap();
    let mut it = t.raw_iterator(&db.core).unwrap();
    it.seek_to_first();
    let mut seen = Vec::new();
    while it.valid() {
        seen.push((it.key().unwrap(), it.value().unwrap()));
        it.next();
    }
    assert_eq!(seen, vec![(b"a".to_vec(), b"1".to_vec()), (b"b".to_vec(), b"2".to_vec())]);
}

#[test]
fn optimistic_read_then_write_conflicts() {
    let mut env = Env::new();
    let mut db = OptimisticTransactionDB::open_default(&mut env, "read_set").unwrap();
    let mut t2 = db.transaction().unwrap();
    assert_eq!(t2.get(&db.core, b"k").unwrap(), None);
    let mut t1 = db.transaction().unwrap();
    t1.put(&mut db.core, b"k", b"t1").unwrap();
    t1.commit(&mut db.core).unwrap();
    t2.put(&mut db.core, b"k", b"t2").unwrap();
    assert_eq!(t2.commit(&mut db.core).unwrap_err().kind, ErrorKind::Conflict);
    assert_eq!(db.base().get(b"k").unwrap(), Some(b"t1".to_vec()));
}

#[test]
fn merge_operator_on_family_options() {
    let mut env = Env::new();
    let mut default_opts = Options::default();
    default_opts.set_merge_operator_associative("concat", MergeOperator::Concat);
    let mut cf1_opts = Options::default();
    cf1_opts.set_merge_operator_associative("append", MergeOperator::Append(b','));
    let cfs = vec![
        ColumnFamilyDescriptor::new("default", default_opts),
        ColumnFamilyDescriptor::new("cf1", cf1_opts),
    ];
    let mut opts = create_opts();
    opts.create_missing_column_families(true);
    let mut db = DB::open_cf_descriptors(&mut env, &opts, "family_merge", cfs).unwrap();
    db.inner.put(b"k", b"a").unwrap();
    db.inner.merge(b"k", b"b").unwrap();
    db.inner.merge(b"k", b"c").unwrap();
    db.inner.merge(b"k", b"d").unwrap();
    assert_eq!(db.inner.get(b"k").unwrap(), Some(b"abcd".to_vec()));
    let cf1 = db.inner.cf_handle("cf1").unwrap();
    db.inner.merge_cf(cf1, b"k", b"x").unwrap();
    db.inner.merge_cf(cf1, b"k", b"y").unwrap();
    assert_eq!(db.inner.get_cf(cf1, b"k").unwrap(), Some(b"x,y".to_vec()));
    db.inner.compact().unwrap();
    assert_eq!(db.inner.get(b"k").unwrap(), Some(b"abcd".to_vec()));
    assert_eq!(db.inner.get_cf(cf1, b"k").unwrap(), Some(b"x,y".to_vec()));
}

#[test]
fn xor_operator_and_its_failure() {
    let mut env = Env::new();
    let mut opts = create_opts();
    opts.set_merge_operator_associative("xor", MergeOperator::BytesXor);
    let mut db = DB::open(&mut env, &opts, "xor").unwrap();
    db.inner.put(b"k", &[0b1100, 0b1010]).unwrap();
    db.inner.merge(b"k", &[0b1010, 0b1010]).unwrap();
    assert_eq!(db.inner.get(b"k").unwrap(), Some(vec![0b0110, 0]));
    db.inner.merge(b"k", &[1, 2, 3]).unwrap();
    assert_eq!(db.inner.get(b"k").unwrap_err().kind, ErrorKind::Corruption);
    assert_eq!(db.inner.compact().unwrap_err().kind, ErrorKind::Corruption);
    db.inner.put(b"k", b"ok").unwrap();
    db.inner.compact().unwrap();
    assert_eq!(db.inner.get(b"k").unwrap(), Some(b"ok".to_vec()));
}
