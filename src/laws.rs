//! Properties that relate several operations, stated and proved.
use vstd::prelude::*;
use crate::db::{DBInner, Snapshot};
use crate::env::Env;
use crate::merge::{merged, MergeOperator};
use crate::open_util::{open_failure, with_default, AccessType};
use crate::options::Options;
use crate::storage::{batch_records, default_cf_name, key_seq, BatchOpView};
use crate::transaction::{conflicted, held_by, held_by_other, Transaction, WatchedKey};
use crate::version::{
    lemma_fold_concat, lemma_fold_invisible, value_at, visible, OpView, RecordView,
    ValueState,
};

verus! {

/// The records of a write to one key, committed at `seq`.
pub open spec fn single_write(cf: u32, key: Seq<u8>, op: OpView) -> Seq<BatchOpView> {
    seq![BatchOpView { cf, key, op }]
}

/// After a put of `v` on a key commits, a read without a snapshot returns
/// `v`; after a delete, the key is absent. So along any sequence of puts and
/// deletes to one key, a read returns what the most recent one wrote.
pub proof fn law_read_your_latest_write(before: DBInner, after: DBInner, cf: u32, key: Seq<u8>, op: OpView, seq: u64)
    requires
        after.written(before, single_write(cf, key, op), seq),
        op is Put || op is Delete,
    ensures
        op is Put ==> after.current(cf, key) == ValueState::Present(op->Put_0),
        op is Delete ==> after.current(cf, key) == ValueState::Absent,
{
    let recs = batch_records(single_write(cf, key, op), seq);
    let l = after.storage.log_view();
    assert(recs.len() == 1);
    assert(l.drop_last() =~= before.storage.log_view());
    assert(l.last() == recs[0]);
}

/// A snapshot never observes a write committed after it was taken, and two
/// snapshots of the same sequence number read the same value of every key.
pub proof fn law_snapshot_isolation(
    before: DBInner,
    after: DBInner,
    ops: Seq<BatchOpView>,
    seq: u64,
    s: Snapshot,
    t: Snapshot,
    cf: u32,
    key: Seq<u8>,
)
    requires
        before.wf(),
        before.is_live(s),
        after.written(before, ops, seq),
        t.seq == s.seq,
    ensures
        after.at(s, cf, key) == before.at(s, cf, key),
        after.at(t, cf, key) == after.at(s, cf, key),
{
    let i = choose|i: int| 0 <= i < before.snapshots@.len() && #[trigger] before.snapshots@[i] == s;
    assert(s.seq <= before.storage.last_seq);
    let recs = batch_records(ops, seq);
    lemma_fold_concat(ValueState::Absent, before.storage.log_view(), recs, cf, key, s.seq, after.merges.op_for(cf));
    assert forall|k: int| 0 <= k < recs.len() implies !visible(#[trigger] recs[k], cf, key, s.seq) by {
        assert(recs[k].seq == seq);
    }
    lemma_fold_invisible(before.at(s, cf, key), recs, cf, key, s.seq, after.merges.op_for(cf));
}

/// The newest record of a key in a concatenation comes from the second part
/// where that part writes the key.
pub proof fn lemma_key_seq_concat(a: Seq<RecordView>, b: Seq<RecordView>, cf: u32, key: Seq<u8>)
    ensures
        (exists|i: int| 0 <= i < b.len() && #[trigger] b[i].cf == cf && b[i].key == key) ==> key_seq(a + b, cf, key) == key_seq(b, cf, key),
        !(exists|i: int| 0 <= i < b.len() && #[trigger] b[i].cf == cf && b[i].key == key) ==> key_seq(a + b, cf, key) == key_seq(a, cf, key),
    decreases b.len(),
{
    if b.len() == 0 {
        assert(a + b =~= a);
    } else {
        assert((a + b).drop_last() =~= a + b.drop_last());
        assert((a + b).last() == b.last());
        lemma_key_seq_concat(a, b.drop_last(), cf, key);
        if !(b.last().cf == cf && b.last().key == key) {
            if exists|i: int| 0 <= i < b.len() && #[trigger] b[i].cf == cf && b[i].key == key {
                let i = choose|i: int| 0 <= i < b.len() && #[trigger] b[i].cf == cf && b[i].key == key;
                assert(i != b.len() - 1);
                assert(b.drop_last()[i].cf == cf);
            }
            if exists|i: int| 0 <= i < b.drop_last().len() && #[trigger] b.drop_last()[i].cf == cf && b.drop_last()[i].key == key {
                let i = choose|i: int| 0 <= i < b.drop_last().len() && #[trigger] b.drop_last()[i].cf == cf && b.drop_last()[i].key == key;
                assert(b[i].cf == cf);
            }
        }
    }
}

/// Every record of a committed batch carries the batch's sequence number, so
/// the newest record of a key it writes does too.
pub proof fn lemma_key_seq_batch(ops: Seq<BatchOpView>, seq: u64, cf: u32, key: Seq<u8>)
    requires
        exists|i: int| 0 <= i < ops.len() && #[trigger] ops[i].cf == cf && ops[i].key == key,
    ensures
        key_seq(batch_records(ops, seq), cf, key) == seq,
    decreases ops.len(),
{
    let recs = batch_records(ops, seq);
    if !(ops.last().cf == cf && ops.last().key == key) {
        let i = choose|i: int| 0 <= i < ops.len() && #[trigger] ops[i].cf == cf && ops[i].key == key;
        assert(i != ops.len() - 1);
        assert(ops.drop_last()[i].cf == cf);
        assert(recs.drop_last() =~= batch_records(ops.drop_last(), seq));
        lemma_key_seq_batch(ops.drop_last(), seq, cf, key);
    }
}

/// Optimistic validation: where transaction T2 watches key K, observed at a
/// sequence number up to the latest one, and T1 then commits a write to K,
/// T2's watched keys are in conflict, so T2's commit fails with `Conflict`.
pub proof fn law_optimistic_conflict(
    before: DBInner,
    after: DBInner,
    t1_ops: Seq<BatchOpView>,
    seq: u64,
    t2_watched: Seq<WatchedKey>,
    k: int,
)
    requires
        after.written(before, t1_ops, seq),
        0 <= k < t2_watched.len(),
        t2_watched[k].seq <= before.storage.last_seq,
        exists|i: int| 0 <= i < t1_ops.len() && #[trigger] t1_ops[i].cf == t2_watched[k].cf && t1_ops[i].key == t2_watched[k].key@,
    ensures
        conflicted(t2_watched, after.storage.log_view()),
{
    let w = t2_watched[k];
    let recs = batch_records(t1_ops, seq);
    let i = choose|i: int| 0 <= i < t1_ops.len() && #[trigger] t1_ops[i].cf == w.cf && t1_ops[i].key == w.key@;
    assert(recs[i].cf == w.cf && recs[i].key == w.key@);
    lemma_key_seq_concat(before.storage.log_view(), recs, w.cf, w.key@);
    lemma_key_seq_batch(t1_ops, seq, w.cf, w.key@);
}

/// Optimistic validation: a commit of T1 that writes none of T2's watched
/// keys leaves T2's validation as it was, so T2 commits independently of T1.
pub proof fn law_optimistic_independent(
    before: DBInner,
    after: DBInner,
    t1_ops: Seq<BatchOpView>,
    seq: u64,
    t2_watched: Seq<WatchedKey>,
)
    requires
        after.written(before, t1_ops, seq),
        forall|k: int, i: int| 0 <= k < t2_watched.len() && 0 <= i < t1_ops.len() ==> !(#[trigger] t1_ops[i].cf == #[trigger] t2_watched[k].cf && t1_ops[i].key == t2_watched[k].key@),
    ensures
        conflicted(t2_watched, after.storage.log_view()) == conflicted(t2_watched, before.storage.log_view()),
{
    let recs = batch_records(t1_ops, seq);
    assert forall|k: int| 0 <= k < t2_watched.len() implies key_seq(after.storage.log_view(), #[trigger] t2_watched[k].cf, t2_watched[k].key@) == key_seq(before.storage.log_view(), t2_watched[k].cf, t2_watched[k].key@) by {
        let w = t2_watched[k];
        lemma_key_seq_concat(before.storage.log_view(), recs, w.cf, w.key@);
        if exists|i: int| 0 <= i < recs.len() && #[trigger] recs[i].cf == w.cf && recs[i].key == w.key@ {
            let i = choose|i: int| 0 <= i < recs.len() && #[trigger] recs[i].cf == w.cf && recs[i].key == w.key@;
            assert(t1_ops[i].cf == w.cf);
        }
    }
}

/// Pessimistic locking: while one transaction holds a key's lock, a request
/// of any other transaction for it finds the lock taken; once no other
/// transaction holds it, the request is granted.
pub proof fn law_lock_exclusion(locks: Seq<crate::transaction::Lock>, cf: u32, key: Seq<u8>, holder: u64, other: u64)
    ensures
        held_by(locks, cf, key, holder) && holder != other ==> held_by_other(locks, cf, key, other),
        (forall|o: u64| o != other ==> !held_by(locks, cf, key, o)) ==> !held_by_other(locks, cf, key, other),
{
    if held_by(locks, cf, key, holder) && holder != other {
        let i = choose|i: int| 0 <= i < locks.len() && #[trigger] locks[i].cf == cf && locks[i].key@ == key && locks[i].owner == Some(holder);
        assert(locks[i].owner.is_some());
    }
    if held_by_other(locks, cf, key, other) {
        let i = choose|i: int| 0 <= i < locks.len() && #[trigger] locks[i].cf == cf && locks[i].key@ == key && locks[i].owner.is_some() && locks[i].owner != Some(other);
        assert(held_by(locks, cf, key, locks[i].owner.unwrap()));
    }
}

/// Pessimistic transactions in turn: where the first commits a value and the
/// second, granted the lock afterwards, commits a merge operand on the same
/// key, the value read is the operand merged onto the first one's value.
pub proof fn law_serial_merge(
    db0: DBInner,
    db1: DBInner,
    db2: DBInner,
    cf: u32,
    key: Seq<u8>,
    v: Seq<u8>,
    operand: Seq<u8>,
    s1: u64,
    s2: u64,
    m: MergeOperator,
)
    requires
        db0.merges.op_for(cf) == Some(m),
        db1.written(db0, single_write(cf, key, OpView::Put(v)), s1),
        db2.written(db1, single_write(cf, key, OpView::Merge(operand)), s2),
    ensures
        db2.current(cf, key) == crate::version::merge_state(merged(m, Some(v), operand)),
{
    law_read_your_latest_write(db0, db1, cf, key, OpView::Put(v), s1);
    let l2 = db2.storage.log_view();
    let l1 = db1.storage.log_view();
    assert(l2.drop_last() =~= l1);
    assert(l2.last() == batch_records(single_write(cf, key, OpView::Merge(operand)), s2)[0]);
    assert(l1.last() == batch_records(single_write(cf, key, OpView::Put(v)), s1)[0]);
    assert(l1.drop_last() =~= db0.storage.log_view());
    assert(value_at(l1, cf, key, s2, db2.merges.op_for(cf)) == ValueState::Present(v));
}

/// Catalog round trip: creating a database with the families "default" and
/// `name` (asking for `name` alone, the default one is implied) leaves it
/// with exactly those two families.
pub proof fn law_catalog_round_trip(env0: Env, env1: Env, opts: Options, path: Seq<char>, name: Seq<char>, db: DBInner)
    requires
        env0.index_of(path).is_none(),
        crate::db::open_contract(env0, env1, opts, path, seq![name], seq![], AccessType::ReadWrite, Ok::<DBInner, crate::error::Error>(db)),
    ensures
        forall|n: Seq<char>| #[trigger] db.storage.has_name(n) <==> (n == default_cf_name() || n == name),
{
    let req = with_default(seq![name]);
    assert forall|n: Seq<char>| #[trigger] db.storage.has_name(n) <==> (n == default_cf_name() || n == name) by {
        if req.contains(n) {
            let k = choose|k: int| 0 <= k < req.len() && req[k] == n;
            if seq![name].contains(default_cf_name()) {
            } else {
                assert(req =~= seq![name, default_cf_name()]);
            }
        }
        if n == name {
            assert(seq![name][0] == n);
            if seq![name].contains(default_cf_name()) {
                assert(req[0] == n);
            } else {
                assert(req[0] == n);
            }
        }
        if n == default_cf_name() && !seq![name].contains(default_cf_name()) {
            assert(req[1] == n);
        }
        if seq![name].contains(default_cf_name()) && req.contains(n) {
            let k = choose|k: int| 0 <= k < req.len() && req[k] == n;
            assert(k == 0);
        }
    }
}

/// Catalog round trip: a read-write open that leaves out a family of the
/// stored catalog is refused; the catalog must be named in full.
pub proof fn law_reopen_must_name_families(env: Env, opts: Options, path: Seq<char>, name: Seq<char>)
    requires
        env.index_of(path).is_some(),
        env.dbs@[env.index_of(path).unwrap()].storage.has_name(name),
        name != default_cf_name(),
        !opts.error_if_exists,
        !env.dbs@[env.index_of(path).unwrap()].locked,
    ensures
        open_failure(env, opts, path, seq![], AccessType::ReadWrite) == Some(crate::error::ErrorKind::InvalidOperation),
{
    let st = env.dbs@[env.index_of(path).unwrap()].storage;
    let req = with_default(seq![]);
    assert(req =~= seq![default_cf_name()]);
    let k = choose|k: int| 0 <= k < st.families@.len() && #[trigger] st.families@[k].name@ == name;
    assert(!req.contains(st.families@[k].name@)) by {
        if req.contains(name) {
            let j = choose|j: int| 0 <= j < req.len() && req[j] == name;
        }
    }
}

/// Savepoints: the writes made after a savepoint are all undone by rolling
/// back to it, and exactly the writes made before it remain, to be committed.
pub proof fn law_savepoint_rollback(before: Transaction, during: Transaction, after: Transaction, extra: Seq<BatchOpView>)
    requires
        during.savepoints@.len() > 0,
        during.savepoints@.last().writes == before.writes@.len(),
        during.write_view() == before.write_view() + extra,
        after.write_view() == during.write_view().subrange(0, during.savepoints@.last().writes as int),
    ensures
        after.write_view() == before.write_view(),
{
    assert(before.write_view().len() == before.writes@.len());
    assert(after.write_view() =~= before.write_view());
}

/// The operands, one after the other.
pub open spec fn concat_all(ops: Seq<Seq<u8>>) -> Seq<u8>
    decreases ops.len(),
{
    if ops.len() == 0 {
        Seq::empty()
    } else {
        concat_all(ops.drop_last()) + ops.last()
    }
}

/// `l` holds, for one key and up to `h`, a put of `a` followed by one merge
/// record per operand of `ops`, in order.
pub open spec fn is_merge_chain(l: Seq<RecordView>, cf: u32, key: Seq<u8>, a: Seq<u8>, ops: Seq<Seq<u8>>, h: u64) -> bool {
    &&& l.len() == ops.len() + 1
    &&& forall|i: int| 0 <= i < l.len() ==> (#[trigger] l[i]).cf == cf && l[i].key == key && l[i].seq <= h
    &&& l[0].op == OpView::Put(a)
    &&& forall|i: int| 1 <= i < l.len() ==> (#[trigger] l[i]).op == OpView::Merge(ops[i - 1])
}

/// With the concatenating operator, a value followed by merge operands reads
/// as the value with every operand appended in order.
pub proof fn law_merge_chain(l: Seq<RecordView>, cf: u32, key: Seq<u8>, a: Seq<u8>, ops: Seq<Seq<u8>>, h: u64)
    requires
        is_merge_chain(l, cf, key, a, ops, h),
    ensures
        value_at(l, cf, key, h, Some(MergeOperator::Concat)) == ValueState::Present(a + concat_all(ops)),
    decreases ops.len(),
{
    if ops.len() == 0 {
        assert(l.drop_last() =~= Seq::<RecordView>::empty());
        assert(l.last() == l[0]);
        assert(a + concat_all(ops) =~= a);
    } else {
        let l1 = l.drop_last();
        let o1 = ops.drop_last();
        assert forall|i: int| 0 <= i < l1.len() implies (#[trigger] l1[i]).cf == cf && l1[i].key == key && l1[i].seq <= h by {
            assert(l1[i] == l[i]);
        }
        assert forall|i: int| 1 <= i < l1.len() implies (#[trigger] l1[i]).op == OpView::Merge(o1[i - 1]) by {
            assert(l1[i] == l[i]);
        }
        assert(l1[0] == l[0]);
        law_merge_chain(l1, cf, key, a, o1, h);
        assert(l.last() == l[l.len() - 1]);
        assert(a + concat_all(ops) =~= (a + concat_all(o1)) + ops.last());
    }
}

/// What a value followed by merge operands resolves to under operator `m`:
/// each operand merged onto the result of the ones before, failing where a
/// merge fails.
pub open spec fn chain_value(m: MergeOperator, a: Seq<u8>, ops: Seq<Seq<u8>>) -> ValueState
    decreases ops.len(),
{
    if ops.len() == 0 {
        ValueState::Present(a)
    } else {
        match chain_value(m, a, ops.drop_last()) {
            ValueState::Present(v) => crate::version::merge_state(merged(m, Some(v), ops.last())),
            other => other,
        }
    }
}

/// With any merge operator, a value followed by merge operands reads as the
/// operands merged one by one onto the value.
pub proof fn law_merge_chain_any(l: Seq<RecordView>, cf: u32, key: Seq<u8>, a: Seq<u8>, ops: Seq<Seq<u8>>, h: u64, m: MergeOperator)
    requires
        is_merge_chain(l, cf, key, a, ops, h),
    ensures
        value_at(l, cf, key, h, Some(m)) == chain_value(m, a, ops),
    decreases ops.len(),
{
    if ops.len() == 0 {
        assert(l.drop_last() =~= Seq::<RecordView>::empty());
        assert(l.last() == l[0]);
    } else {
        let l1 = l.drop_last();
        let o1 = ops.drop_last();
        assert forall|i: int| 0 <= i < l1.len() implies (#[trigger] l1[i]).cf == cf && l1[i].key == key && l1[i].seq <= h by {
            assert(l1[i] == l[i]);
        }
        assert forall|i: int| 1 <= i < l1.len() implies (#[trigger] l1[i]).op == OpView::Merge(o1[i - 1]) by {
            assert(l1[i] == l[i]);
        }
        assert(l1[0] == l[0]);
        law_merge_chain_any(l1, cf, key, a, o1, h, m);
        assert(l.last() == l[l.len() - 1]);
    }
}

/// Merge operands survive compaction, whatever the family's operator: a key
/// holding a value followed by merge operands reads as their chain value
/// before a compaction and after it.
pub proof fn law_merge_chain_survives_compaction(before: DBInner, after: DBInner, cf: u32, key: Seq<u8>, a: Seq<u8>, ops: Seq<Seq<u8>>, m: MergeOperator)
    requires
        before.merges.op_for(cf) == Some(m),
        before.storage.has_cf(cf),
        is_merge_chain(before.storage.log_view(), cf, key, a, ops, before.storage.last_seq),
        forall|c: u32, k: Seq<u8>| before.storage.has_cf(c) ==> #[trigger] after.current(c, k) == before.current(c, k),
    ensures
        before.current(cf, key) == chain_value(m, a, ops),
        after.current(cf, key) == chain_value(m, a, ops),
{
    law_merge_chain_any(before.storage.log_view(), cf, key, a, ops, before.storage.last_seq, m);
    assert(after.current(cf, key) == before.current(cf, key));
}

/// A transaction that pins no snapshot and has not written a key reads the
/// value that the latest commit put there: a second transaction granted a
/// key's lock after the first committed builds on the first's value.
pub proof fn law_read_after_commit(before: DBInner, after: DBInner, t: Transaction, cf: u32, key: Seq<u8>, v: Seq<u8>, seq: u64)
    requires
        after.written(before, single_write(cf, key, OpView::Put(v)), seq),
        t.snapshot.is_none(),
        forall|j: int| 0 <= j < t.writes@.len() ==> !((#[trigger] t.writes@[j]).cf == cf && t.writes@[j].key@ == key),
    ensures
        crate::transaction::txn_value(t, after, cf, key) == ValueState::Present(v),
{
    law_read_your_latest_write(before, after, cf, key, OpView::Put(v), seq);
    let recs = crate::transaction::txn_records(t);
    assert forall|j: int| 0 <= j < recs.len() implies !visible(#[trigger] recs[j], cf, key, u64::MAX) by {
        assert(recs[j].cf == t.writes@[j].cf && recs[j].key == t.writes@[j].key@);
    }
    lemma_fold_invisible(ValueState::Present(v), recs, cf, key, u64::MAX, after.merges.op_for(cf));
}

} // verus!
