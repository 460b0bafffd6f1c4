//! Open databases: reads and writes, snapshots, column families, and the
//! read-write, read-only, secondary and TTL handles.
use vstd::prelude::*;
use crate::env::Env;
use crate::error::{Error, ErrorKind};
use crate::merge::{operator_of, FamilyMerge, MergeOperator, MergeTable};
use crate::open_util::{
    catalog_has, catalog_next_id, descriptor_ops, descriptor_names, family_op, lemma_family_op_default, open_cf_descriptors_internal, open_failure, with_default,
    AccessType,
};
use crate::options::{convert_cfs_to_descriptors, ColumnFamilyDescriptor, Options};
use crate::storage::{
    batch_records, batch_view, batches_wf, flatten, UpdateBatch, default_cf_name, read_result, string_views, BatchOp, BatchOpView, LiveFile,
    Storage,
};
use crate::version::{collapsed, view_log, Op, OpView, Record, RecordView, ValueState};

verus! {

/// A pinned sequence number: reads at a snapshot see the writes up to it.
#[derive(Clone, Copy, Debug, PartialEq, Eq, Structural)]
pub struct Snapshot {
    pub id: u64,
    pub seq: u64,
}

/// A handle on a column family.
#[derive(Clone, Copy, Debug, PartialEq, Eq, Structural)]
pub struct ColumnFamily {
    pub id: u32,
}

/// An ordered batch of writes, applied atomically.
pub struct WriteBatch {
    pub ops: Vec<BatchOp>,
}

impl WriteBatch {
    pub fn new() -> (r: WriteBatch)
        ensures
            r.ops@.len() == 0,
    {
        WriteBatch { ops: Vec::new() }
    }

    pub open spec fn push_op(&self, o: WriteBatch, cf: u32, key: Seq<u8>, op: OpView) -> bool {
        self.ops@.len() == o.ops@.len() + 1 && self.ops@.drop_last() == o.ops@
            && self.ops@.last()@ == (BatchOpView { cf, key, op })
    }

    fn push(&mut self, cf: u32, key: &[u8], op: Op)
        ensures
            final(self).push_op(*old(self), cf, key@, op@),
    {
        self.ops.push(BatchOp { cf, key: crate::bytes::to_vec(key), op });
        assert(self.ops@.drop_last() =~= old(self).ops@);
    }

    pub fn put_cf(&mut self, cf: ColumnFamily, key: &[u8], value: &[u8])
        ensures
            final(self).push_op(*old(self), cf.id, key@, OpView::Put(value@)),
    {
        self.push(cf.id, key, Op::Put(crate::bytes::to_vec(value)));
    }

    pub fn delete_cf(&mut self, cf: ColumnFamily, key: &[u8])
        ensures
            final(self).push_op(*old(self), cf.id, key@, OpView::Delete),
    {
        self.push(cf.id, key, Op::Delete);
    }

    pub fn merge_cf(&mut self, cf: ColumnFamily, key: &[u8], operand: &[u8])
        ensures
            final(self).push_op(*old(self), cf.id, key@, OpView::Merge(operand@)),
    {
        self.push(cf.id, key, Op::Merge(crate::bytes::to_vec(operand)));
    }

    pub fn put(&mut self, key: &[u8], value: &[u8])
        ensures
            final(self).push_op(*old(self), 0, key@, OpView::Put(value@)),
    {
        self.push(0, key, Op::Put(crate::bytes::to_vec(value)));
    }

    pub fn delete(&mut self, key: &[u8])
        ensures
            final(self).push_op(*old(self), 0, key@, OpView::Delete),
    {
        self.push(0, key, Op::Delete);
    }

    pub fn merge(&mut self, key: &[u8], operand: &[u8])
        ensures
            final(self).push_op(*old(self), 0, key@, OpView::Merge(operand@)),
    {
        self.push(0, key, Op::Merge(crate::bytes::to_vec(operand)));
    }

    pub fn len(&self) -> (r: usize)
        ensures
            r == self.ops@.len(),
    {
        self.ops.len()
    }
}

/// The batch holds a merge operand for a column family without a merge operator.
pub open spec fn lacks_operator(ops: Seq<BatchOpView>, merges: MergeTable) -> bool {
    exists|i: int| 0 <= i < ops.len() && (#[trigger] ops[i]).op is Merge && merges.op_for(ops[i].cf).is_none()
}

fn batch_lacks_operator(ops: &Vec<BatchOp>, merges: &MergeTable) -> (r: bool)
    ensures
        r == lacks_operator(batch_view(ops@), *merges),
{
    let ghost v = batch_view(ops@);
    let mut i: usize = 0;
    while i < ops.len()
        invariant
            i <= ops@.len(),
            v == batch_view(ops@),
            forall|j: int| 0 <= j < i ==> !((#[trigger] v[j]).op is Merge && merges.op_for(v[j].cf).is_none()),
        decreases ops@.len() - i,
    {
        assert(v[i as int] == ops@[i as int]@);
        match &ops[i].op {
            Op::Merge(_) => {
                if merges.get(ops[i].cf).is_none() {
                    return true;
                }
            },
            _ => {},
        }
        i = i + 1;
    }
    false
}

/// The merge operator of each family of `storage`: the one its descriptor's
/// options name, else the database's.
fn family_merges(storage: &Storage, opts: &Options, cfs: &Vec<ColumnFamilyDescriptor>) -> (r: MergeTable)
    requires
        storage.wf(),
        forall|k: int| 0 <= k < cfs@.len() ==> storage.has_name(#[trigger] cfs@[k].name@),
    ensures
        r.default == opts.merge_operator,
        forall|i: int| 0 <= i < storage.families@.len() ==> #[trigger] r.op_for(storage.families@[i].id)
            == family_op(descriptor_names(cfs@), descriptor_ops(cfs@), storage.families@[i].name@, opts.merge_operator),
{
    let ghost names = descriptor_names(cfs@);
    let ghost ops = descriptor_ops(cfs@);
    let ghost fams = storage.families@;
    let mut table = MergeTable { default: opts.merge_operator, families: Vec::new() };
    let mut k: usize = 0;
    while k < cfs.len()
        invariant
            storage.wf(),
            k <= cfs@.len(),
            names == descriptor_names(cfs@),
            ops == descriptor_ops(cfs@),
            fams == storage.families@,
            forall|j: int| 0 <= j < cfs@.len() ==> storage.has_name(#[trigger] cfs@[j].name@),
            table.default == opts.merge_operator,
            forall|i: int| 0 <= i < fams.len() ==> #[trigger] table.op_for(fams[i].id)
                == family_op(names.subrange(0, k as int), ops, fams[i].name@, opts.merge_operator),
        decreases cfs@.len() - k,
    {
        let ghost t0 = table.families@;
        let ghost tab0 = table;
        proof {
            let sub = names.subrange(0, k + 1);
            assert(sub.drop_last() =~= names.subrange(0, k as int));
            assert(sub.last() == cfs@[k as int].name@);
            assert(ops[k as int] == cfs@[k as int].options.merge_operator);
        }
        match cfs[k].options.merge_operator {
            None => {},
            Some(m) => {
                match storage.find_family(cfs[k].name.as_str()) {
                    None => {},
                    Some(f) => {
                        let id = storage.families[f].id;
                        table.families.push(FamilyMerge { cf: id, op: m });
                        proof {
                            assert(table.families@.drop_last() =~= t0);
                            assert forall|i: int| 0 <= i < fams.len() implies #[trigger] table.op_for(fams[i].id)
                                == family_op(names.subrange(0, k + 1), ops, fams[i].name@, opts.merge_operator) by {
                                let sub = names.subrange(0, k + 1);
                                assert(sub.last() == cfs@[k as int].name@);
                                assert(sub.drop_last() =~= names.subrange(0, k as int));
                                assert(fams[f as int].name@ == cfs@[k as int].name@);
                                assert(table.families@.last() == FamilyMerge { cf: id, op: m });
                                assert(table.op_for(fams[i].id) == if fams[i].id == id { Some(m) } else { operator_of(t0, fams[i].id, table.default) });
                                assert(tab0.op_for(fams[i].id) == family_op(names.subrange(0, k as int), ops, fams[i].name@, opts.merge_operator));
                                assert(tab0.op_for(fams[i].id) == operator_of(t0, fams[i].id, table.default));
                                assert(ops.len() == cfs@.len());
                                assert(ops[k as int] == Some(m));
                                if fams[i].id == id {
                                    if i != f as int {
                                        if i < f { assert(fams[i].id != fams[f as int].id); } else { assert(fams[f as int].id != fams[i].id); }
                                    }
                                } else if fams[i].name@ == cfs@[k as int].name@ {
                                    if i != f as int {
                                        if i < f { assert(fams[i].name@ != fams[f as int].name@); } else { assert(fams[f as int].name@ != fams[i].name@); }
                                    }
                                }
                            }
                        }
                    },
                }
            },
        }
        k = k + 1;
    }
    assert(names.subrange(0, cfs@.len() as int) =~= names);
    table
}

/// The smallest sequence number among the snapshots and `last`.
pub open spec fn oldest_seq(snaps: Seq<Snapshot>, last: u64) -> u64
    decreases snaps.len(),
{
    if snaps.len() == 0 {
        last
    } else {
        let m = oldest_seq(snaps.drop_last(), last);
        if snaps.last().seq < m { snaps.last().seq } else { m }
    }
}

/// What opening `path` in mode `access`, asking for the families `names`
/// whose options name the merge operators `ops` (one per name, or none at
/// all), does to the medium `env0` (leaving `env1`) and returns.
pub open spec fn open_contract(
    env0: Env,
    env1: Env,
    opts: Options,
    path: Seq<char>,
    names: Seq<Seq<char>>,
    ops: Seq<Option<MergeOperator>>,
    access: AccessType,
    r: Result<DBInner, Error>,
) -> bool {
    &&& env1.wf()
    &&& match open_failure(env0, opts, path, names, access) {
        Some(k) => r == Err::<DBInner, Error>(Error { kind: k }) && env1 == env0,
        None => r.is_ok() || (r == Err::<DBInner, Error>(Error { kind: ErrorKind::OutOfRange })
            && env1 == env0 && catalog_next_id(env0, path) + with_default(names).len() > u32::MAX),
    }
    &&& r.is_ok() ==> {
        let db = r.unwrap();
        &&& db.wf()
        &&& db.path@ == path
        &&& db.access == access
        &&& db.merges.default == opts.merge_operator
        &&& forall|i: int| 0 <= i < db.storage.families@.len() ==> #[trigger] db.merges.op_for(db.storage.families@[i].id)
            == family_op(names, ops, db.storage.families@[i].name@, opts.merge_operator)
        &&& db.snapshots@.len() == 0
        &&& db.next_snapshot_id == 0
        &&& !db.background_work_cancelled
        &&& access.writable() ==> forall|n: Seq<char>| #[trigger] db.storage.has_name(n) <==> (catalog_has(env0, path, n)
            || with_default(names).contains(n))
        &&& !access.writable() ==> forall|n: Seq<char>| #[trigger] db.storage.has_name(n) <==> with_default(names).contains(n)
        &&& env0.index_of(path).is_some() ==> db.storage.log_view() == env0.dbs@[env0.index_of(path).unwrap()].storage.log_view()
            && db.storage.last_seq == env0.dbs@[env0.index_of(path).unwrap()].storage.last_seq
        &&& env0.index_of(path).is_none() ==> db.storage.log@.len() == 0 && db.storage.last_seq == 0
        &&& access.writable() ==> env1.index_of(path).is_some()
            && env1.dbs@[env1.index_of(path).unwrap()].storage.same(db.storage)
            && env1.dbs@[env1.index_of(path).unwrap()].locked
        &&& !access.writable() ==> env1 == env0
    }
}

/// An open database: its stored state, the mode it was opened in, the merge
/// operator of each column family, and its live snapshots.
pub struct DBInner {
    pub path: String,
    pub storage: Storage,
    pub access: AccessType,
    pub merges: MergeTable,
    pub snapshots: Vec<Snapshot>,
    pub next_snapshot_id: u64,
    pub background_work_cancelled: bool,
}

impl DBInner {
    /// The invariant of an open database. Every live snapshot lies within the
    /// history that compaction has kept intact.
    pub open spec fn wf(&self) -> bool {
        &&& self.storage.wf()
        &&& forall|i: int|
            0 <= i < self.snapshots@.len() ==> self.storage.compacted_through <= (
            #[trigger] self.snapshots@[i]).seq <= self.storage.last_seq
        &&& forall|i: int|
            0 <= i < self.snapshots@.len() ==> (#[trigger] self.snapshots@[i]).id < self.next_snapshot_id
    }

    pub open spec fn is_live(&self, s: Snapshot) -> bool {
        exists|i: int| 0 <= i < self.snapshots@.len() && #[trigger] self.snapshots@[i] == s
    }

    /// The value of a key now.
    pub open spec fn current(&self, cf: u32, key: Seq<u8>) -> ValueState {
        self.storage.value(cf, key, self.storage.last_seq, self.merges.op_for(cf))
    }

    /// The value of a key as of a snapshot.
    pub open spec fn at(&self, s: Snapshot, cf: u32, key: Seq<u8>) -> ValueState {
        self.storage.value(cf, key, s.seq, self.merges.op_for(cf))
    }

    /// Why a batch of writes is refused, if it is.
    pub open spec fn write_failure(&self, ops: Seq<BatchOpView>) -> Option<ErrorKind> {
        if !self.access.writable() {
            Some(ErrorKind::InvalidOperation)
        } else if lacks_operator(ops, self.merges) {
            Some(ErrorKind::InvalidOperation)
        } else if self.storage.last_seq == u64::MAX {
            Some(ErrorKind::OutOfRange)
        } else if exists|i: int| 0 <= i < ops.len() && !self.storage.has_cf(#[trigger] ops[i].cf) {
            Some(ErrorKind::InvalidOperation)
        } else {
            None
        }
    }

    /// What a successful write leaves behind.
    pub open spec fn written(&self, old: DBInner, ops: Seq<BatchOpView>, seq: u64) -> bool {
        &&& seq == old.storage.last_seq + 1
        &&& self.storage.last_seq == seq
        &&& self.storage.log_view() == old.storage.log_view() + batch_records(ops, seq)
        &&& self.storage.families == old.storage.families
        &&& self.snapshots == old.snapshots
        &&& self.merges == old.merges
        &&& self.access == old.access
        &&& self.path == old.path
    }

    /// Opens a database in the given mode.
    pub fn open_cf_descriptors_internal(
        env: &mut Env,
        opts: &Options,
        path: &str,
        cfs: &Vec<ColumnFamilyDescriptor>,
        access: &AccessType,
    ) -> (r: Result<DBInner, Error>)
        requires
            old(env).wf(),
        ensures
            open_contract(*old(env), *final(env), *opts, path@, descriptor_names(cfs@), descriptor_ops(cfs@), *access, r),
    {
        match open_cf_descriptors_internal(env, opts, path, cfs, access) {
            Err(e) => Err(e),
            Ok(storage) => {
                proof {
                    let names = descriptor_names(cfs@);
                    assert forall|k: int| 0 <= k < cfs@.len() implies storage.has_name(#[trigger] cfs@[k].name@) by {
                        assert(names[k] == cfs@[k].name@);
                        if names.contains(default_cf_name()) {
                            assert(with_default(names)[k] == cfs@[k].name@);
                        } else {
                            assert(with_default(names)[k] == cfs@[k].name@);
                        }
                    }
                }
                let merges = family_merges(&storage, opts, cfs);
                Ok(DBInner {
                    path: String::from_str(path),
                    storage,
                    access: *access,
                    merges,
                    snapshots: Vec::new(),
                    next_snapshot_id: 0,
                    background_work_cancelled: false,
                })
            },
        }
    }

    pub fn path(&self) -> (r: &str)
        ensures
            r@ == self.path@,
    {
        self.path.as_str()
    }

    /// The sequence number of the most recent write.
    pub fn latest_sequence_number(&self) -> (r: u64)
        ensures
            r == self.storage.last_seq,
    {
        self.storage.last_seq
    }

    /// The writes committed at sequence number `seq_number` or later: one
    /// batch per sequence number, in strictly increasing order. Fails with
    /// `OutOfRange` where compaction has collapsed part of that history.
    pub fn get_updates_since(&self, seq_number: u64) -> (r: Result<Vec<UpdateBatch>, Error>)
        requires
            self.wf(),
        ensures
            0 < self.storage.compacted_through && seq_number <= self.storage.compacted_through ==> r
                == Err::<Vec<UpdateBatch>, Error>(Error { kind: ErrorKind::OutOfRange }),
            !(0 < self.storage.compacted_through && seq_number <= self.storage.compacted_through)
                ==> r.is_ok() && batches_wf(r.unwrap()@) && flatten(r.unwrap()@) == self.storage.log_view().filter(
                |x: RecordView| x.seq >= seq_number,
            ),
    {
        self.storage.updates_since(seq_number)
    }

    /// Describes the table files that reads are served from.
    pub fn live_files(&self) -> (r: Result<Vec<LiveFile>, Error>)
        requires
            self.wf(),
        ensures
            r.is_ok(),
            r.unwrap()@.len() == self.storage.files@.len(),
            forall|k: int|
                0 <= k < r.unwrap()@.len() ==> crate::storage::describes(
                    #[trigger] r.unwrap()@[k],
                    self.storage.files@[k],
                    self.storage.log_view().subrange(
                        self.storage.files@[k].start as int,
                        self.storage.files@[k].end as int,
                    ),
                ),
    {
        Ok(self.storage.live_files())
    }

    /// Requests that background work stop; flushes and compactions are refused afterwards.
    pub fn cancel_all_background_work(&mut self, wait: bool)
        ensures
            final(self).background_work_cancelled,
            final(self).storage == old(self).storage,
            final(self).snapshots == old(self).snapshots,
            final(self).access == old(self).access,
            final(self).merges == old(self).merges,
            final(self).next_snapshot_id == old(self).next_snapshot_id,
            final(self).path == old(self).path,
    {
        self.background_work_cancelled = true;
    }

    /// Pins the current sequence number.
    pub fn create_snapshot(&mut self) -> (r: Result<Snapshot, Error>)
        requires
            old(self).wf(),
        ensures
            final(self).wf(),
            final(self).storage == old(self).storage,
            final(self).access == old(self).access,
            final(self).merges == old(self).merges,
            final(self).path == old(self).path,
            old(self).next_snapshot_id == u64::MAX ==> r == Err::<Snapshot, Error>(Error { kind: ErrorKind::OutOfRange }),
            r.is_err() ==> *final(self) == *old(self),
            old(self).next_snapshot_id < u64::MAX ==> r.is_ok(),
            r.is_ok() ==> {
                &&& r.unwrap().seq == old(self).storage.last_seq
                &&& final(self).snapshots@ == old(self).snapshots@.push(r.unwrap())
                &&& !old(self).is_live(r.unwrap())
                &&& final(self).is_live(r.unwrap())
            },
    {
        if self.next_snapshot_id == u64::MAX {
            return Err(Error::new(ErrorKind::OutOfRange));
        }
        let s = Snapshot { id: self.next_snapshot_id, seq: self.storage.last_seq };
        self.next_snapshot_id = self.next_snapshot_id + 1;
        proof {
            if self.is_live(s) {
                let i = choose|i: int| 0 <= i < self.snapshots@.len() && #[trigger] self.snapshots@[i] == s;
                assert(self.snapshots@[i].id < old(self).next_snapshot_id);
            }
        }
        self.snapshots.push(s);
        assert(self.snapshots@[self.snapshots@.len() - 1] == s);
        proof {
            assert forall|i: int| 0 <= i < self.snapshots@.len() implies self.storage.compacted_through <= (#[trigger] self.snapshots@[i]).seq <= self.storage.last_seq by {
                if i < old(self).snapshots@.len() { assert(self.snapshots@[i] == old(self).snapshots@[i]); }
            }
            assert forall|i: int| 0 <= i < self.snapshots@.len() implies (#[trigger] self.snapshots@[i]).id < self.next_snapshot_id by {
                if i < old(self).snapshots@.len() { assert(self.snapshots@[i] == old(self).snapshots@[i]); }
            }
        }
        Ok(s)
    }

    pub(crate) fn find_snapshot(&self, s: Snapshot) -> (r: Option<usize>)
        ensures
            r.is_none() ==> !self.is_live(s),
            r.is_some() ==> r.unwrap() < self.snapshots@.len() && self.snapshots@[r.unwrap() as int] == s,
    {
        let mut i: usize = 0;
        while i < self.snapshots.len()
            invariant
                i <= self.snapshots@.len(),
                forall|j: int| 0 <= j < i ==> self.snapshots@[j] != s,
            decreases self.snapshots@.len() - i,
        {
            if self.snapshots[i] == s {
                return Some(i);
            }
            i = i + 1;
        }
        None
    }

    /// Releases a snapshot; releasing one that is not live is refused.
    pub fn release_snapshot(&mut self, s: Snapshot) -> (r: Result<(), Error>)
        requires
            old(self).wf(),
        ensures
            final(self).wf(),
            final(self).storage == old(self).storage,
            final(self).access == old(self).access,
            final(self).merges == old(self).merges,
            final(self).path == old(self).path,
            !old(self).is_live(s) ==> r == Err::<(), Error>(Error { kind: ErrorKind::InvalidOperation }) && *final(self) == *old(self),
            old(self).is_live(s) ==> r.is_ok() && !final(self).is_live(s),
            forall|t: Snapshot| t != s ==> (#[trigger] final(self).is_live(t) <==> old(self).is_live(t)),
    {
        match self.find_snapshot(s) {
            None => Err(Error::new(ErrorKind::InvalidOperation)),
            Some(_) => {
                let ghost before = self.snapshots@;
                let mut kept: Vec<Snapshot> = Vec::new();
                let mut i: usize = 0;
                while i < self.snapshots.len()
                    invariant
                        self.wf(),
                        *self == *old(self),
                        before == self.snapshots@,
                        i <= self.snapshots@.len(),
                        forall|k: int| 0 <= k < kept@.len() ==> #[trigger] kept@[k] != s,
                        forall|k: int| 0 <= k < kept@.len() ==> self.storage.compacted_through <= (#[trigger] kept@[k]).seq <= self.storage.last_seq
                            && kept@[k].id < self.next_snapshot_id,
                        forall|t: Snapshot| t != s ==> (#[trigger] kept@.contains(t) <==> before.subrange(0, i as int).contains(t)),
                    decreases self.snapshots@.len() - i,
                {
                    let x = self.snapshots[i];
                    let ghost k0 = kept@;
                    if x != s {
                        kept.push(x);
                    }
                    proof {
                        let p0 = before.subrange(0, i as int);
                        let p1 = before.subrange(0, i + 1);
                        assert(p1 =~= p0.push(x));
                        assert forall|t: Snapshot| t != s implies (#[trigger] kept@.contains(t) <==> p1.contains(t)) by {
                            if kept@.contains(t) {
                                let k = choose|k: int| 0 <= k < kept@.len() && kept@[k] == t;
                                if k < k0.len() {
                                    assert(k0[k] == t);
                                    assert(k0.contains(t));
                                    let m = choose|m: int| 0 <= m < p0.len() && p0[m] == t;
                                    assert(p1[m] == t);
                                } else {
                                    assert(p1[i as int] == t);
                                }
                            }
                            if p1.contains(t) {
                                let m = choose|m: int| 0 <= m < p1.len() && p1[m] == t;
                                if m < i {
                                    assert(p0[m] == t);
                                    assert(p0.contains(t));
                                    assert(k0.contains(t));
                                    let k = choose|k: int| 0 <= k < k0.len() && k0[k] == t;
                                    assert(kept@[k] == t);
                                } else {
                                    assert(kept@[kept@.len() - 1] == t);
                                }
                            }
                        }
                    }
                    i = i + 1;
                }
                self.snapshots = kept;
                proof {
                    assert(before.subrange(0, before.len() as int) =~= before);
                    assert forall|t: Snapshot| t != s implies (#[trigger] self.is_live(t) <==> old(self).is_live(t)) by {
                        assert(self.snapshots@.contains(t) <==> before.contains(t));
                        if old(self).is_live(t) {
                            let m = choose|m: int| 0 <= m < before.len() && #[trigger] old(self).snapshots@[m] == t;
                            assert(before[m] == t);
                            assert(before.contains(t));
                            let k = choose|k: int| 0 <= k < self.snapshots@.len() && self.snapshots@[k] == t;
                            assert(self.snapshots@[k] == t);
                        }
                        if self.is_live(t) {
                            let k = choose|k: int| 0 <= k < self.snapshots@.len() && #[trigger] self.snapshots@[k] == t;
                            assert(self.snapshots@.contains(t));
                            let m = choose|m: int| 0 <= m < before.len() && before[m] == t;
                            assert(old(self).snapshots@[m] == t);
                        }
                    }
                    if self.is_live(s) {
                        let k = choose|k: int| 0 <= k < self.snapshots@.len() && #[trigger] self.snapshots@[k] == s;
                    }
                }
                Ok(())
            },
        }
    }

    /// A handle on the column family with this name.
    pub fn cf_handle(&self, name: &str) -> (r: Option<ColumnFamily>)
        ensures
            r.is_none() ==> !self.storage.has_name(name@),
            r.is_some() ==> exists|i: int| 0 <= i < self.storage.families@.len()
                && #[trigger] self.storage.families@[i].name@ == name@ && self.storage.families@[i].id == r.unwrap().id,
    {
        match self.storage.find_family(name) {
            None => None,
            Some(i) => Some(ColumnFamily { id: self.storage.families[i].id }),
        }
    }

    /// The handle on the default column family.
    pub fn default_cf(&self) -> (r: ColumnFamily)
        ensures
            r.id == 0,
    {
        ColumnFamily { id: 0 }
    }

    /// Creates a column family.
    pub fn create_cf(&mut self, name: &str) -> (r: Result<ColumnFamily, Error>)
        requires
            old(self).wf(),
        ensures
            final(self).wf(),
            final(self).snapshots == old(self).snapshots,
            final(self).access == old(self).access,
            final(self).merges == old(self).merges,
            final(self).storage.log == old(self).storage.log,
            final(self).storage.last_seq == old(self).storage.last_seq,
            !old(self).access.writable() ==> r == Err::<ColumnFamily, Error>(Error { kind: ErrorKind::InvalidOperation }),
            old(self).access.writable() && old(self).storage.has_name(name@) ==> r == Err::<ColumnFamily, Error>(Error { kind: ErrorKind::AlreadyExists }),
            old(self).access.writable() && !old(self).storage.has_name(name@) && old(self).storage.next_cf_id < u32::MAX ==> r.is_ok(),
            r.is_err() ==> *final(self) == *old(self),
            r.is_ok() ==> final(self).storage.names() == old(self).storage.names().push(name@)
                && !old(self).storage.has_cf(r.unwrap().id) && final(self).storage.has_cf(r.unwrap().id),
    {
        if !self.access.is_writable() {
            return Err(Error::new(ErrorKind::InvalidOperation));
        }
        match self.storage.create_family(name) {
            Err(e) => Err(e),
            Ok(id) => {
                assert(self.storage.families@[self.storage.families@.len() - 1].id == id);
                Ok(ColumnFamily { id })
            },
        }
    }

    /// Drops a column family by name.
    pub fn drop_cf(&mut self, name: &str) -> (r: Result<(), Error>)
        requires
            old(self).wf(),
        ensures
            final(self).wf(),
            final(self).snapshots == old(self).snapshots,
            final(self).access == old(self).access,
            final(self).merges == old(self).merges,
            final(self).storage.log == old(self).storage.log,
            final(self).storage.last_seq == old(self).storage.last_seq,
            !old(self).access.writable() ==> r == Err::<(), Error>(Error { kind: ErrorKind::InvalidOperation }),
            old(self).access.writable() && !old(self).storage.has_name(name@) ==> r == Err::<(), Error>(Error { kind: ErrorKind::NotFound }),
            old(self).access.writable() && name@ == default_cf_name() ==> r == Err::<(), Error>(Error { kind: ErrorKind::InvalidOperation }),
            old(self).access.writable() && old(self).storage.has_name(name@) && name@ != default_cf_name() ==> r.is_ok(),
            r.is_err() ==> *final(self) == *old(self),
            r.is_ok() ==> !final(self).storage.has_name(name@) && exists|i: int|
                0 < i < old(self).storage.families@.len() && old(self).storage.families@[i].name@ == name@
                    && #[trigger] final(self).storage.names() == old(self).storage.names().remove(i),
    {
        if !self.access.is_writable() {
            return Err(Error::new(ErrorKind::InvalidOperation));
        }
        self.storage.drop_family(name)
    }

    /// The names of the column families.
    pub fn column_family_names(&self) -> (r: Vec<String>)
        ensures
            string_views(r@) == self.storage.names(),
    {
        self.storage.family_names()
    }

    /// Applies a batch atomically at one new sequence number.
    pub fn write(&mut self, batch: WriteBatch) -> (r: Result<u64, Error>)
        requires
            old(self).wf(),
        ensures
            final(self).wf(),
            match old(self).write_failure(batch_view(batch.ops@)) {
                Some(k) => r == Err::<u64, Error>(Error { kind: k }) && *final(self) == *old(self),
                None => r.is_ok() && final(self).written(*old(self), batch_view(batch.ops@), r.unwrap()),
            },
    {
        if !self.access.is_writable() {
            return Err(Error::new(ErrorKind::InvalidOperation));
        }
        if batch_lacks_operator(&batch.ops, &self.merges) {
            return Err(Error::new(ErrorKind::InvalidOperation));
        }
        let r = self.storage.write(&batch.ops);
        proof {
            let v = batch_view(batch.ops@);
            if exists|i: int| 0 <= i < v.len() && !old(self).storage.has_cf(#[trigger] v[i].cf) {
                let i = choose|i: int| 0 <= i < v.len() && !old(self).storage.has_cf(#[trigger] v[i].cf);
                assert(batch.ops@[i]@ == v[i]);
                assert(!old(self).storage.has_cf(batch.ops@[i].cf));
            } else {
                assert forall|i: int| 0 <= i < batch.ops@.len() implies old(self).storage.has_cf(#[trigger] batch.ops@[i].cf) by {
                    assert(batch.ops@[i]@ == v[i]);
                    if !old(self).storage.has_cf(v[i].cf) {
                        assert(exists|j: int| 0 <= j < v.len() && !old(self).storage.has_cf(#[trigger] v[j].cf));
                    }
                }
            }
            assert forall|i: int| 0 <= i < self.snapshots@.len() implies self.storage.compacted_through <= (#[trigger] self.snapshots@[i]).seq <= self.storage.last_seq by {
                assert(old(self).storage.compacted_through <= self.snapshots@[i].seq <= old(self).storage.last_seq);
            }
        }
        r
    }

    /// Writes one operation as a batch of its own.
    pub fn write_one(&mut self, cf: u32, key: &[u8], op: Op) -> (r: Result<u64, Error>)
        requires
            old(self).wf(),
        ensures
            final(self).wf(),
            match old(self).write_failure(seq![BatchOpView { cf, key: key@, op: op@ }]) {
                Some(k) => r == Err::<u64, Error>(Error { kind: k }) && *final(self) == *old(self),
                None => r.is_ok() && final(self).written(*old(self), seq![BatchOpView { cf, key: key@, op: op@ }], r.unwrap()),
            },
    {
        let ghost opv = op@;
        let mut batch = WriteBatch::new();
        batch.push(cf, key, op);
        assert(batch_view(batch.ops@) =~= seq![BatchOpView { cf, key: key@, op: opv }]);
        self.write(batch)
    }
}


impl DBInner {
    /// Reads a key of a column family as of now.
    pub fn get_cf(&self, cf: ColumnFamily, key: &[u8]) -> (r: Result<Option<Vec<u8>>, Error>)
        ensures
            read_result(self.current(cf.id, key@), r),
    {
        self.storage.get(cf.id, key, self.storage.last_seq, self.merges.get(cf.id))
    }

    /// Reads a key of the default column family as of now.
    pub fn get(&self, key: &[u8]) -> (r: Result<Option<Vec<u8>>, Error>)
        ensures
            read_result(self.current(0, key@), r),
    {
        self.storage.get(0, key, self.storage.last_seq, self.merges.get(0))
    }

    /// Reads a key of a column family as of a snapshot; a snapshot that is not
    /// live is refused.
    pub fn get_cf_at(&self, snapshot: &Snapshot, cf: ColumnFamily, key: &[u8]) -> (r: Result<Option<Vec<u8>>, Error>)
        ensures
            !self.is_live(*snapshot) ==> r == Err::<Option<Vec<u8>>, Error>(Error { kind: ErrorKind::InvalidOperation }),
            self.is_live(*snapshot) ==> read_result(self.at(*snapshot, cf.id, key@), r),
    {
        match self.find_snapshot(*snapshot) {
            None => Err(Error::new(ErrorKind::InvalidOperation)),
            Some(_) => self.storage.get(cf.id, key, snapshot.seq, self.merges.get(cf.id)),
        }
    }

    /// Reads a key of the default column family as of a snapshot.
    pub fn get_at(&self, snapshot: &Snapshot, key: &[u8]) -> (r: Result<Option<Vec<u8>>, Error>)
        ensures
            !self.is_live(*snapshot) ==> r == Err::<Option<Vec<u8>>, Error>(Error { kind: ErrorKind::InvalidOperation }),
            self.is_live(*snapshot) ==> read_result(self.at(*snapshot, 0, key@), r),
    {
        self.get_cf_at(snapshot, ColumnFamily { id: 0 }, key)
    }

    /// Sets a key of a column family to a value.
    pub fn put_cf(&mut self, cf: ColumnFamily, key: &[u8], value: &[u8]) -> (r: Result<u64, Error>)
        requires
            old(self).wf(),
        ensures
            final(self).wf(),
            match old(self).write_failure(seq![BatchOpView { cf: cf.id, key: key@, op: OpView::Put(value@) }]) {
                Some(k) => r == Err::<u64, Error>(Error { kind: k }) && *final(self) == *old(self),
                None => r.is_ok() && final(self).written(*old(self), seq![BatchOpView { cf: cf.id, key: key@, op: OpView::Put(value@) }], r.unwrap()),
            },
    {
        self.write_one(cf.id, key, Op::Put(crate::bytes::to_vec(value)))
    }

    /// Deletes a key of a column family: writes a tombstone.
    pub fn delete_cf(&mut self, cf: ColumnFamily, key: &[u8]) -> (r: Result<u64, Error>)
        requires
            old(self).wf(),
        ensures
            final(self).wf(),
            match old(self).write_failure(seq![BatchOpView { cf: cf.id, key: key@, op: OpView::Delete }]) {
                Some(k) => r == Err::<u64, Error>(Error { kind: k }) && *final(self) == *old(self),
                None => r.is_ok() && final(self).written(*old(self), seq![BatchOpView { cf: cf.id, key: key@, op: OpView::Delete }], r.unwrap()),
            },
    {
        self.write_one(cf.id, key, Op::Delete)
    }

    /// Queues a merge operand on a key of a column family.
    pub fn merge_cf(&mut self, cf: ColumnFamily, key: &[u8], operand: &[u8]) -> (r: Result<u64, Error>)
        requires
            old(self).wf(),
        ensures
            final(self).wf(),
            match old(self).write_failure(seq![BatchOpView { cf: cf.id, key: key@, op: OpView::Merge(operand@) }]) {
                Some(k) => r == Err::<u64, Error>(Error { kind: k }) && *final(self) == *old(self),
                None => r.is_ok() && final(self).written(*old(self), seq![BatchOpView { cf: cf.id, key: key@, op: OpView::Merge(operand@) }], r.unwrap()),
            },
    {
        self.write_one(cf.id, key, Op::Merge(crate::bytes::to_vec(operand)))
    }

    /// Sets a key of the default column family.
    pub fn put(&mut self, key: &[u8], value: &[u8]) -> (r: Result<u64, Error>)
        requires
            old(self).wf(),
        ensures
            final(self).wf(),
            match old(self).write_failure(seq![BatchOpView { cf: 0, key: key@, op: OpView::Put(value@) }]) {
                Some(k) => r == Err::<u64, Error>(Error { kind: k }) && *final(self) == *old(self),
                None => r.is_ok() && final(self).written(*old(self), seq![BatchOpView { cf: 0, key: key@, op: OpView::Put(value@) }], r.unwrap()),
            },
    {
        self.put_cf(ColumnFamily { id: 0 }, key, value)
    }

    /// Deletes a key of the default column family.
    pub fn delete(&mut self, key: &[u8]) -> (r: Result<u64, Error>)
        requires
            old(self).wf(),
        ensures
            final(self).wf(),
            match old(self).write_failure(seq![BatchOpView { cf: 0, key: key@, op: OpView::Delete }]) {
                Some(k) => r == Err::<u64, Error>(Error { kind: k }) && *final(self) == *old(self),
                None => r.is_ok() && final(self).written(*old(self), seq![BatchOpView { cf: 0, key: key@, op: OpView::Delete }], r.unwrap()),
            },
    {
        self.delete_cf(ColumnFamily { id: 0 }, key)
    }

    /// Queues a merge operand on a key of the default column family.
    pub fn merge(&mut self, key: &[u8], operand: &[u8]) -> (r: Result<u64, Error>)
        requires
            old(self).wf(),
        ensures
            final(self).wf(),
            match old(self).write_failure(seq![BatchOpView { cf: 0, key: key@, op: OpView::Merge(operand@) }]) {
                Some(k) => r == Err::<u64, Error>(Error { kind: k }) && *final(self) == *old(self),
                None => r.is_ok() && final(self).written(*old(self), seq![BatchOpView { cf: 0, key: key@, op: OpView::Merge(operand@) }], r.unwrap()),
            },
    {
        self.merge_cf(ColumnFamily { id: 0 }, key, operand)
    }

    /// The oldest sequence number that a live snapshot or a current read can ask for.
    pub open spec fn horizon(&self) -> u64 {
        oldest_seq(self.snapshots@, self.storage.last_seq)
    }

    /// The oldest sequence number that a live snapshot or a current read can ask for.
    pub fn oldest_horizon(&self) -> (h: u64)
        requires
            self.wf(),
        ensures
            h == self.horizon(),
            self.storage.compacted_through <= h <= self.storage.last_seq,
            forall|i: int| 0 <= i < self.snapshots@.len() ==> h <= (#[trigger] self.snapshots@[i]).seq,
            h == self.storage.last_seq || exists|i: int| 0 <= i < self.snapshots@.len() && h == (#[trigger] self.snapshots@[i]).seq,
    {
        let mut h = self.storage.last_seq;
        let mut i: usize = 0;
        while i < self.snapshots.len()
            invariant
                self.wf(),
                i <= self.snapshots@.len(),
                self.storage.compacted_through <= h <= self.storage.last_seq,
                forall|j: int| 0 <= j < i ==> h <= (#[trigger] self.snapshots@[j]).seq,
                h == self.storage.last_seq || exists|j: int| 0 <= j < self.snapshots@.len() && h == (#[trigger] self.snapshots@[j]).seq,
                h == oldest_seq(self.snapshots@.subrange(0, i as int), self.storage.last_seq),
            decreases self.snapshots@.len() - i,
        {
            assert(self.snapshots@.subrange(0, i + 1).drop_last() =~= self.snapshots@.subrange(0, i as int));
            assert(self.snapshots@.subrange(0, i + 1).last() == self.snapshots@[i as int]);
            if self.snapshots[i].seq < h {
                h = self.snapshots[i].seq;
            }
            i = i + 1;
        }
        assert(self.snapshots@.subrange(0, i as int) =~= self.snapshots@);
        h
    }

    /// Flushes the memtable into a table file.
    pub fn flush(&mut self) -> (r: Result<(), Error>)
        requires
            old(self).wf(),
        ensures
            final(self).wf(),
            old(self).background_work_cancelled || !old(self).access.writable() ==> r == Err::<(), Error>(Error { kind: ErrorKind::InvalidOperation }) && *final(self) == *old(self),
            !old(self).background_work_cancelled && old(self).access.writable() ==> r.is_ok(),
            r.is_ok() && old(self).storage.next_file_number < u64::MAX ==> final(self).storage.flushed == final(self).storage.log@.len(),
            final(self).storage.log == old(self).storage.log,
            final(self).storage.last_seq == old(self).storage.last_seq,
            final(self).snapshots == old(self).snapshots,
            final(self).merges == old(self).merges,
    {
        if self.background_work_cancelled || !self.access.is_writable() {
            return Err(Error::new(ErrorKind::InvalidOperation));
        }
        self.storage.flush();
        Ok(())
    }

    /// Compacts the store down to the oldest live snapshot: every read that a
    /// live snapshot or a current read can make returns what it returned before.
    /// Fails with `Corruption`, changing nothing, exactly where some key's
    /// history up to that point holds a merge operand that cannot be resolved.
    pub fn compact(&mut self) -> (r: Result<(), Error>)
        requires
            old(self).wf(),
        ensures
            final(self).wf(),
            old(self).background_work_cancelled || !old(self).access.writable() ==> r == Err::<(), Error>(Error { kind: ErrorKind::InvalidOperation }) && *final(self) == *old(self),
            r.is_err() ==> *final(self) == *old(self),
            !old(self).background_work_cancelled && old(self).access.writable() && old(self).storage.next_file_number >= u64::MAX - 1
                ==> r == Err::<(), Error>(Error { kind: ErrorKind::OutOfRange }),
            !old(self).background_work_cancelled && old(self).access.writable() && old(self).storage.next_file_number < u64::MAX - 1 ==> {
                &&& r.is_ok() <==> forall|cf: u32, key: Seq<u8>| old(self).storage.has_cf(cf)
                    ==> #[trigger] old(self).storage.value(cf, key, old(self).horizon(), old(self).merges.op_for(cf)) != ValueState::Unmergeable
                &&& r.is_err() ==> r == Err::<(), Error>(Error { kind: ErrorKind::Corruption })
            },
            r.is_ok() ==> final(self).storage.compacted_through == old(self).horizon(),
            final(self).storage.last_seq == old(self).storage.last_seq,
            final(self).storage.families == old(self).storage.families,
            final(self).snapshots == old(self).snapshots,
            final(self).merges == old(self).merges,
            final(self).access == old(self).access,
            forall|cf: u32, key: Seq<u8>| old(self).storage.has_cf(cf) ==> #[trigger] final(self).current(cf, key) == old(self).current(cf, key),
            forall|s: Snapshot, cf: u32, key: Seq<u8>| old(self).is_live(s) && old(self).storage.has_cf(cf) ==> #[trigger] final(self).at(s, cf, key) == old(self).at(s, cf, key),
            r.is_ok() ==> forall|i: int| 0 <= i < final(self).storage.log@.len() ==> final(self).storage.has_cf((#[trigger] final(self).storage.log@[i]).cf),
            r.is_ok() ==> collapsed(final(self).storage.log_view(), final(self).storage.compacted_through),
            r.is_ok() ==> final(self).storage.compacted_through == old(self).storage.last_seq
                || exists|i: int| 0 <= i < old(self).snapshots@.len() && final(self).storage.compacted_through == (#[trigger] old(self).snapshots@[i]).seq,
    {
        if self.background_work_cancelled || !self.access.is_writable() {
            return Err(Error::new(ErrorKind::InvalidOperation));
        }
        let h = self.oldest_horizon();
        let r = self.storage.compact(h, &self.merges);
        proof {
            assert forall|s: Snapshot, cf: u32, key: Seq<u8>| old(self).is_live(s) && old(self).storage.has_cf(cf) implies #[trigger] self.at(s, cf, key) == old(self).at(s, cf, key) by {
                let i = choose|i: int| 0 <= i < old(self).snapshots@.len() && #[trigger] old(self).snapshots@[i] == s;
                assert(h <= old(self).snapshots@[i].seq);
            }
            assert forall|cf: u32, key: Seq<u8>| old(self).storage.has_cf(cf) implies #[trigger] self.current(cf, key) == old(self).current(cf, key) by {
                assert(self.storage.value(cf, key, self.storage.last_seq, self.merges.op_for(cf)) == old(self).storage.value(cf, key, self.storage.last_seq, self.merges.op_for(cf)));
            }
            assert forall|i: int| 0 <= i < self.snapshots@.len() implies self.storage.compacted_through <= (#[trigger] self.snapshots@[i]).seq <= self.storage.last_seq by {
                assert(h <= self.snapshots@[i].seq);
            }
        }
        r
    }

    /// Writes the stored state of a writable database to the medium.
    pub fn persist(&self, env: &mut Env) -> (r: Result<(), Error>)
        requires
            self.wf(),
            old(env).wf(),
        ensures
            final(env).wf(),
            !self.access.writable() ==> r == Err::<(), Error>(Error { kind: ErrorKind::InvalidOperation }) && *final(env) == *old(env),
            self.access.writable() ==> r.is_ok() && final(env).index_of(self.path@).is_some()
                && final(env).dbs@[final(env).index_of(self.path@).unwrap()].storage.same(self.storage)
                && final(env).dbs@[final(env).index_of(self.path@).unwrap()].locked,
    {
        if !self.access.is_writable() {
            return Err(Error::new(ErrorKind::InvalidOperation));
        }
        let copy = self.storage.duplicate();
        env.store(self.path.as_str(), copy, true);
        Ok(())
    }

    /// Closes the database; a writable one is persisted and released.
    pub fn close(self, env: &mut Env)
        requires
            self.wf(),
            old(env).wf(),
        ensures
            final(env).wf(),
            !self.access.writable() ==> *final(env) == *old(env),
            self.access.writable() ==> final(env).index_of(self.path@).is_some()
                && final(env).dbs@[final(env).index_of(self.path@).unwrap()].storage.same(self.storage)
                && !final(env).dbs@[final(env).index_of(self.path@).unwrap()].locked,
    {
        if self.access.is_writable() {
            let copy = self.storage.duplicate();
            env.store(self.path.as_str(), copy, false);
        }
    }
}

/// The options that the convenience openers use: create the database if missing.
pub open spec fn create_if_missing_spec() -> Options {
    Options {
        create_if_missing: true,
        create_missing_column_families: false,
        error_if_exists: false,
        merge_operator: None,
        merge_operator_name: None,
    }
}

pub fn create_if_missing_options() -> (r: Options)
    ensures
        r == create_if_missing_spec(),
{
    Options {
        create_if_missing: true,
        create_missing_column_families: false,
        error_if_exists: false,
        merge_operator: None,
        merge_operator_name: None,
    }
}

/// The result of an open, as the handle it wraps.
pub open spec fn unwrap_db(r: Result<DB, Error>) -> Result<DBInner, Error> {
    match r {
        Ok(d) => Ok(d.inner),
        Err(e) => Err(e),
    }
}

/// A database opened for reading and writing.
pub struct DB {
    pub inner: DBInner,
}

impl DB {
    pub fn base(&self) -> (r: &DBInner)
        ensures
            *r == self.inner,
    {
        &self.inner
    }

    pub fn base_mut(&mut self) -> (r: &mut DBInner)
        ensures
            *r == old(self).inner,
            final(self).inner == *final(r),
    {
        &mut self.inner
    }

    /// Opens a database with default options, creating it if missing.
    pub fn open_default(env: &mut Env, path: &str) -> (r: Result<DB, Error>)
        requires
            old(env).wf(),
        ensures
            open_contract(*old(env), *final(env), create_if_missing_spec(), path@, seq![], seq![], AccessType::ReadWrite, unwrap_db(r)),
    {
        let opts = create_if_missing_options();
        Self::open(env, &opts, path)
    }

    /// Opens the database with the specified options.
    pub fn open(env: &mut Env, opts: &Options, path: &str) -> (r: Result<DB, Error>)
        requires
            old(env).wf(),
        ensures
            open_contract(*old(env), *final(env), *opts, path@, seq![], seq![], AccessType::ReadWrite, unwrap_db(r)),
    {
        let no_cfs: Vec<ColumnFamilyDescriptor> = Vec::new();
        assert(descriptor_names(no_cfs@) =~= seq![]);
        Self::open_cf_descriptors(env, opts, path, no_cfs)
    }

    /// Opens a database with the given options and column family names.
    pub fn open_cf(env: &mut Env, opts: &Options, path: &str, cfs: &[&str]) -> (r: Result<DB, Error>)
        requires
            old(env).wf(),
        ensures
            open_contract(*old(env), *final(env), *opts, path@, cfs@.map_values(|n: &str| n@), seq![], AccessType::ReadWrite, unwrap_db(r)),
    {
        let descriptors = convert_cfs_to_descriptors(cfs);
        assert(descriptor_names(descriptors@) =~= cfs@.map_values(|n: &str| n@));
        proof { lemma_family_op_default(descriptor_names(descriptors@), descriptor_ops(descriptors@), opts.merge_operator); }
        Self::open_cf_descriptors(env, opts, path, descriptors)
    }

    /// Opens a database with the given options and column family descriptors.
    pub fn open_cf_descriptors(env: &mut Env, opts: &Options, path: &str, cfs: Vec<ColumnFamilyDescriptor>) -> (r: Result<DB, Error>)
        requires
            old(env).wf(),
        ensures
            open_contract(*old(env), *final(env), *opts, path@, descriptor_names(cfs@), descriptor_ops(cfs@), AccessType::ReadWrite, unwrap_db(r)),
    {
        match DBInner::open_cf_descriptors_internal(env, opts, path, &cfs, &AccessType::ReadWrite) {
            Ok(inner) => Ok(DB { inner }),
            Err(e) => Err(e),
        }
    }
}

/// A database opened for reading only: it offers no writes.
pub struct ReadOnlyDB {
    pub inner: DBInner,
}

impl ReadOnlyDB {
    pub fn base(&self) -> (r: &DBInner)
        ensures
            *r == self.inner,
    {
        &self.inner
    }

    /// Opens the database for reading only.
    pub fn open(env: &mut Env, opts: &Options, path: &str, error_if_log_file_exist: bool) -> (r: Result<ReadOnlyDB, Error>)
        requires
            old(env).wf(),
        ensures
            open_contract(*old(env), *final(env), *opts, path@, seq![], seq![], AccessType::ReadOnly { error_if_log_file_exist },
                match r { Ok(d) => Ok(d.inner), Err(e) => Err(e) }),
    {
        let no_cfs: [&str; 0] = [];
        assert(no_cfs@.map_values(|n: &str| n@) =~= seq![]);
        Self::open_cf(env, opts, path, &no_cfs, error_if_log_file_exist)
    }

    /// Opens the database for reading only, with the given column family names.
    pub fn open_cf(env: &mut Env, opts: &Options, path: &str, cfs: &[&str], error_if_log_file_exist: bool) -> (r: Result<ReadOnlyDB, Error>)
        requires
            old(env).wf(),
        ensures
            open_contract(*old(env), *final(env), *opts, path@, cfs@.map_values(|n: &str| n@), seq![], AccessType::ReadOnly { error_if_log_file_exist },
                match r { Ok(d) => Ok(d.inner), Err(e) => Err(e) }),
    {
        let descriptors = convert_cfs_to_descriptors(cfs);
        assert(descriptor_names(descriptors@) =~= cfs@.map_values(|n: &str| n@));
        proof { lemma_family_op_default(descriptor_names(descriptors@), descriptor_ops(descriptors@), opts.merge_operator); }
        match DBInner::open_cf_descriptors_internal(env, opts, path, &descriptors, &AccessType::ReadOnly { error_if_log_file_exist }) {
            Ok(inner) => Ok(ReadOnlyDB { inner }),
            Err(e) => Err(e),
        }
    }
}

/// A database opened as a secondary: it reads, and catches up with the primary's writes on demand.
pub struct SecondaryDB {
    pub inner: DBInner,
    /// Where the secondary keeps its own state.
    pub secondary_path: String,
}

impl SecondaryDB {
    pub fn base(&self) -> (r: &DBInner)
        ensures
            *r == self.inner,
    {
        &self.inner
    }

    /// Opens the database as a secondary.
    pub fn open(env: &mut Env, opts: &Options, primary_path: &str, secondary_path: &str) -> (r: Result<SecondaryDB, Error>)
        requires
            old(env).wf(),
        ensures
            open_contract(*old(env), *final(env), *opts, primary_path@, seq![], seq![], AccessType::Secondary,
                match r { Ok(d) => Ok(d.inner), Err(e) => Err(e) }),
    {
        let no_cfs: [&str; 0] = [];
        assert(no_cfs@.map_values(|n: &str| n@) =~= seq![]);
        Self::open_cf(env, opts, primary_path, secondary_path, &no_cfs)
    }

    /// Opens the database as a secondary with the given column family names.
    pub fn open_cf(env: &mut Env, opts: &Options, primary_path: &str, secondary_path: &str, cfs: &[&str]) -> (r: Result<SecondaryDB, Error>)
        requires
            old(env).wf(),
        ensures
            open_contract(*old(env), *final(env), *opts, primary_path@, cfs@.map_values(|n: &str| n@), seq![], AccessType::Secondary,
                match r { Ok(d) => Ok(d.inner), Err(e) => Err(e) }),
    {
        let descriptors = convert_cfs_to_descriptors(cfs);
        assert(descriptor_names(descriptors@) =~= cfs@.map_values(|n: &str| n@));
        proof { lemma_family_op_default(descriptor_names(descriptors@), descriptor_ops(descriptors@), opts.merge_operator); }
        match DBInner::open_cf_descriptors_internal(env, opts, primary_path, &descriptors, &AccessType::Secondary) {
            Ok(inner) => Ok(SecondaryDB { inner, secondary_path: String::from_str(secondary_path) }),
            Err(e) => Err(e),
        }
    }

    /// Replays what the primary has persisted since; idempotent. Snapshots
    /// that the new history no longer covers are released.
    pub fn try_catch_up_with_primary(&mut self, env: &Env) -> (r: Result<(), Error>)
        requires
            old(self).inner.wf(),
            env.wf(),
        ensures
            final(self).inner.wf(),
            final(self).inner.path == old(self).inner.path,
            final(self).inner.access == old(self).inner.access,
            final(self).inner.merges == old(self).inner.merges,
            env.index_of(old(self).inner.path@).is_none() ==> r == Err::<(), Error>(Error { kind: ErrorKind::NotFound }) && *final(self) == *old(self),
            env.index_of(old(self).inner.path@).is_some() ==> r.is_ok()
                && final(self).inner.storage.same(env.dbs@[env.index_of(old(self).inner.path@).unwrap()].storage),
            r.is_ok() ==> final(self).inner.snapshots@ == old(self).inner.snapshots@.filter(
                |s: Snapshot| final(self).inner.storage.compacted_through <= s.seq <= final(self).inner.storage.last_seq),
    {
        match env.find(self.inner.path.as_str()) {
            None => Err(Error::new(ErrorKind::NotFound)),
            Some(i) => {
                let storage = env.dbs[i].storage.duplicate();
                let mut kept: Vec<Snapshot> = Vec::new();
                let mut j: usize = 0;
                let ghost lo = storage.compacted_through;
                let ghost hi = storage.last_seq;
                while j < self.inner.snapshots.len()
                    invariant
                        storage.wf(),
                        self.inner.wf(),
                        lo == storage.compacted_through,
                        hi == storage.last_seq,
                        j <= self.inner.snapshots@.len(),
                        kept@ == self.inner.snapshots@.subrange(0, j as int).filter(|s: Snapshot| lo <= s.seq <= hi),
                        forall|k: int| 0 <= k < kept@.len() ==> storage.compacted_through <= (#[trigger] kept@[k]).seq <= storage.last_seq
                            && kept@[k].id < self.inner.next_snapshot_id,
                    decreases self.inner.snapshots@.len() - j,
                {
                    let s = self.inner.snapshots[j];
                    proof {
                        let sub = self.inner.snapshots@.subrange(0, j + 1);
                        assert(sub.drop_last() =~= self.inner.snapshots@.subrange(0, j as int));
                        assert(sub.last() == s);
                        reveal(Seq::filter);
                    }
                    if storage.compacted_through <= s.seq && s.seq <= storage.last_seq {
                        kept.push(s);
                    }
                    j = j + 1;
                }
                assert(self.inner.snapshots@.subrange(0, j as int) =~= self.inner.snapshots@);
                self.inner.storage = storage;
                self.inner.snapshots = kept;
                proof { env.lemma_index_of(self.inner.path@, i as int); }
                Ok(())
            },
        }
    }
}

/// A database whose entries carry a time to live.
pub struct DBWithTTL {
    pub inner: DBInner,
}

impl DBWithTTL {
    pub fn base(&self) -> (r: &DBInner)
        ensures
            *r == self.inner,
    {
        &self.inner
    }

    pub fn base_mut(&mut self) -> (r: &mut DBInner)
        ensures
            *r == old(self).inner,
            final(self).inner == *final(r),
    {
        &mut self.inner
    }

    /// Opens the database with a time to live, in seconds.
    pub fn open(env: &mut Env, opts: &Options, path: &str, ttl_secs: u64) -> (r: Result<DBWithTTL, Error>)
        requires
            old(env).wf(),
        ensures
            open_contract(*old(env), *final(env), *opts, path@, seq![], seq![], AccessType::WithTTL { ttl_secs },
                match r { Ok(d) => Ok(d.inner), Err(e) => Err(e) }),
    {
        let no_cfs: Vec<ColumnFamilyDescriptor> = Vec::new();
        assert(descriptor_names(no_cfs@) =~= seq![]);
        match DBInner::open_cf_descriptors_internal(env, opts, path, &no_cfs, &AccessType::WithTTL { ttl_secs }) {
            Ok(inner) => Ok(DBWithTTL { inner }),
            Err(e) => Err(e),
        }
    }
}

/// Operations on a stored database by its path, without opening it.
pub struct DBUtils;

impl DBUtils {
    /// The names of the column families of the database stored under `path`.
    pub fn list_cf(env: &Env, opts: &Options, path: &str) -> (r: Result<Vec<String>, Error>)
        requires
            env.wf(),
        ensures
            env.index_of(path@).is_none() ==> r == Err::<Vec<String>, Error>(Error { kind: ErrorKind::NotFound }),
            env.index_of(path@).is_some() ==> r.is_ok()
                && string_views(r.unwrap()@) == env.dbs@[env.index_of(path@).unwrap()].storage.names(),
    {
        match env.find(path) {
            None => Err(Error::new(ErrorKind::NotFound)),
            Some(i) => Ok(env.dbs[i].storage.family_names()),
        }
    }

    /// Removes the database stored under `path`; one held open is refused.
    pub fn destroy(env: &mut Env, opts: &Options, path: &str) -> (r: Result<(), Error>)
        requires
            old(env).wf(),
        ensures
            final(env).wf(),
            old(env).index_of(path@).is_none() ==> r == Err::<(), Error>(Error { kind: ErrorKind::NotFound }) && *final(env) == *old(env),
            old(env).index_of(path@).is_some() && old(env).dbs@[old(env).index_of(path@).unwrap()].locked ==> r == Err::<(), Error>(Error { kind: ErrorKind::Busy }) && *final(env) == *old(env),
            old(env).index_of(path@).is_some() && !old(env).dbs@[old(env).index_of(path@).unwrap()].locked ==> r.is_ok() && final(env).index_of(path@).is_none(),
    {
        env.remove(path)
    }

    /// Rebuilds the table files of the database stored under `path`: the
    /// records not yet in a table are moved into one. One held open is refused.
    pub fn repair(env: &mut Env, opts: &Options, path: &str) -> (r: Result<(), Error>)
        requires
            old(env).wf(),
        ensures
            final(env).wf(),
            old(env).index_of(path@).is_none() ==> r == Err::<(), Error>(Error { kind: ErrorKind::NotFound }) && *final(env) == *old(env),
            old(env).index_of(path@).is_some() && old(env).dbs@[old(env).index_of(path@).unwrap()].locked ==> r == Err::<(), Error>(Error { kind: ErrorKind::Busy }) && *final(env) == *old(env),
            old(env).index_of(path@).is_some() && !old(env).dbs@[old(env).index_of(path@).unwrap()].locked ==> r.is_ok()
                && final(env).index_of(path@).is_some()
                && final(env).dbs@[final(env).index_of(path@).unwrap()].storage.log_view() == old(env).dbs@[old(env).index_of(path@).unwrap()].storage.log_view()
                && final(env).dbs@[final(env).index_of(path@).unwrap()].storage.families@ == old(env).dbs@[old(env).index_of(path@).unwrap()].storage.families@
                && (old(env).dbs@[old(env).index_of(path@).unwrap()].storage.next_file_number < u64::MAX
                    ==> final(env).dbs@[final(env).index_of(path@).unwrap()].storage.flushed
                        == final(env).dbs@[final(env).index_of(path@).unwrap()].storage.log@.len()),
    {
        match env.find(path) {
            None => Err(Error::new(ErrorKind::NotFound)),
            Some(i) => {
                if env.dbs[i].locked {
                    return Err(Error::new(ErrorKind::Busy));
                }
                proof { env.lemma_index_of(path@, i as int); }
                let mut storage = env.dbs[i].storage.duplicate();
                storage.flush();
                env.store(path, storage, false);
                Ok(())
            },
        }
    }
}
} // verus!
