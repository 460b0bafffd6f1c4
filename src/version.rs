//! The versioned log: records stamped with sequence numbers, how a read
//! resolves a key as of a sequence number, and compaction of old history.
use vstd::prelude::*;
use crate::bytes::{bytes_eq, to_vec};
use crate::error::{Error, ErrorKind};
use crate::merge::{merged, MergeOperator, MergeTable};

verus! {

/// One write operation on a key.
#[derive(Debug)]
pub enum Op {
    Put(Vec<u8>),
    Delete,
    Merge(Vec<u8>),
}

/// The mathematical content of an `Op`.
pub enum OpView {
    Put(Seq<u8>),
    Delete,
    Merge(Seq<u8>),
}

impl View for Op {
    type V = OpView;

    open spec fn view(&self) -> OpView {
        match self {
            Op::Put(v) => OpView::Put(v@),
            Op::Delete => OpView::Delete,
            Op::Merge(v) => OpView::Merge(v@),
        }
    }
}

/// A versioned record of the log: an operation on `(cf, key)` stamped with
/// the sequence number at which it was committed.
#[derive(Debug)]
pub struct Record {
    pub cf: u32,
    pub key: Vec<u8>,
    pub seq: u64,
    pub op: Op,
}

pub struct RecordView {
    pub cf: u32,
    pub key: Seq<u8>,
    pub seq: u64,
    pub op: OpView,
}

impl View for Record {
    type V = RecordView;

    open spec fn view(&self) -> RecordView {
        RecordView { cf: self.cf, key: self.key@, seq: self.seq, op: self.op@ }
    }
}

/// The records of a log, as values.
pub open spec fn view_log(l: Seq<Record>) -> Seq<RecordView> {
    l.map_values(|r: Record| r@)
}

/// What a read of one key resolves to.
pub enum ValueState {
    Absent,
    Present(Seq<u8>),
    /// A merge operand that no operator can fold in.
    Unmergeable,
}

/// The state that a merge leaves: its value, or unresolvable where it failed.
pub open spec fn merge_state(r: Option<Seq<u8>>) -> ValueState {
    match r {
        Some(v) => ValueState::Present(v),
        None => ValueState::Unmergeable,
    }
}

/// The state of a key after one more operation.
pub open spec fn apply_op(s: ValueState, op: OpView, mo: Option<MergeOperator>) -> ValueState {
    match op {
        OpView::Put(v) => ValueState::Present(v),
        OpView::Delete => ValueState::Absent,
        OpView::Merge(o) => match s {
            ValueState::Unmergeable => ValueState::Unmergeable,
            ValueState::Absent => match mo {
                None => ValueState::Unmergeable,
                Some(m) => merge_state(merged(m, None, o)),
            },
            ValueState::Present(e) => match mo {
                None => ValueState::Unmergeable,
                Some(m) => merge_state(merged(m, Some(e), o)),
            },
        },
    }
}

/// A record that a read of `(cf, key)` at `horizon` takes into account.
pub open spec fn visible(r: RecordView, cf: u32, key: Seq<u8>, horizon: u64) -> bool {
    r.cf == cf && r.key == key && r.seq <= horizon
}

/// Folds the visible records of `log`, oldest first, onto the state `s`.
pub open spec fn fold_from(
    s: ValueState,
    log: Seq<RecordView>,
    cf: u32,
    key: Seq<u8>,
    horizon: u64,
    mo: Option<MergeOperator>,
) -> ValueState
    decreases log.len(),
{
    if log.len() == 0 {
        s
    } else {
        let prev = fold_from(s, log.drop_last(), cf, key, horizon, mo);
        if visible(log.last(), cf, key, horizon) {
            apply_op(prev, log.last().op, mo)
        } else {
            prev
        }
    }
}

/// The value of `(cf, key)` as of sequence number `horizon`: the writes with a
/// sequence number up to `horizon` applied in log order, so that the newest one
/// wins, a tombstone makes the key absent and merge operands fold onto the
/// value beneath them.
pub open spec fn value_at(
    log: Seq<RecordView>,
    cf: u32,
    key: Seq<u8>,
    horizon: u64,
    mo: Option<MergeOperator>,
) -> ValueState {
    fold_from(ValueState::Absent, log, cf, key, horizon, mo)
}

/// Sequence numbers never decrease along the log.
pub open spec fn seq_sorted(l: Seq<RecordView>) -> bool {
    forall|i: int, j: int| 0 <= i <= j < l.len() ==> l[i].seq <= l[j].seq
}

/// Every record of the log carries a sequence number up to `last`.
pub open spec fn seqs_bounded(l: Seq<RecordView>, last: u64) -> bool {
    forall|i: int| 0 <= i < l.len() ==> l[i].seq <= last
}

pub proof fn lemma_view_log_push(a: Seq<Record>, r: Record)
    ensures
        view_log(a.push(r)) == view_log(a).push(r@),
{
    assert(view_log(a.push(r)) =~= view_log(a).push(r@));
}

/// Folding a concatenation folds the second part onto the result of the first.
pub proof fn lemma_fold_concat(
    s: ValueState,
    a: Seq<RecordView>,
    b: Seq<RecordView>,
    cf: u32,
    key: Seq<u8>,
    horizon: u64,
    mo: Option<MergeOperator>,
)
    ensures
        fold_from(s, a + b, cf, key, horizon, mo) == fold_from(
            fold_from(s, a, cf, key, horizon, mo),
            b,
            cf,
            key,
            horizon,
            mo,
        ),
    decreases b.len(),
{
    if b.len() == 0 {
        assert(a + b =~= a);
    } else {
        assert((a + b).drop_last() =~= a + b.drop_last());
        lemma_fold_concat(s, a, b.drop_last(), cf, key, horizon, mo);
    }
}

/// Records that a read cannot see leave the state unchanged.
pub proof fn lemma_fold_invisible(
    s: ValueState,
    l: Seq<RecordView>,
    cf: u32,
    key: Seq<u8>,
    horizon: u64,
    mo: Option<MergeOperator>,
)
    requires
        forall|i: int| 0 <= i < l.len() ==> !visible(#[trigger] l[i], cf, key, horizon),
    ensures
        fold_from(s, l, cf, key, horizon, mo) == s,
    decreases l.len(),
{
    if l.len() > 0 {
        assert(l.last() == l[l.len() - 1]);
        lemma_fold_invisible(s, l.drop_last(), cf, key, horizon, mo);
    }
}

/// A key whose read is not absent has a record that the read takes into account.
pub proof fn lemma_not_absent_visible(l: Seq<RecordView>, cf: u32, key: Seq<u8>, horizon: u64, mo: Option<MergeOperator>)
    requires
        value_at(l, cf, key, horizon, mo) != ValueState::Absent,
    ensures
        exists|i: int| 0 <= i < l.len() && visible(#[trigger] l[i], cf, key, horizon),
{
    if !(exists|i: int| 0 <= i < l.len() && visible(#[trigger] l[i], cf, key, horizon)) {
        lemma_fold_invisible(ValueState::Absent, l, cf, key, horizon, mo);
    }
}

/// A read at any horizon at or above every record's sequence number sees the same thing.
pub proof fn lemma_fold_horizon(
    s: ValueState,
    l: Seq<RecordView>,
    cf: u32,
    key: Seq<u8>,
    h1: u64,
    h2: u64,
    mo: Option<MergeOperator>,
)
    requires
        h1 <= h2,
        seqs_bounded(l, h1),
    ensures
        fold_from(s, l, cf, key, h1, mo) == fold_from(s, l, cf, key, h2, mo),
    decreases l.len(),
{
    if l.len() > 0 {
        assert(l.last() == l[l.len() - 1]);
        lemma_fold_horizon(s, l.drop_last(), cf, key, h1, h2, mo);
    }
}

/// The result of reading one key.
pub enum Lookup {
    Found(Vec<u8>),
    Absent,
    Unmergeable,
}

impl View for Lookup {
    type V = ValueState;

    open spec fn view(&self) -> ValueState {
        match self {
            Lookup::Found(v) => ValueState::Present(v@),
            Lookup::Absent => ValueState::Absent,
            Lookup::Unmergeable => ValueState::Unmergeable,
        }
    }
}

/// Copies an operation.
pub fn copy_op(op: &Op) -> (r: Op)
    ensures
        r@ == op@,
{
    match op {
        Op::Put(v) => Op::Put(to_vec(v.as_slice())),
        Op::Delete => Op::Delete,
        Op::Merge(v) => Op::Merge(to_vec(v.as_slice())),
    }
}

/// Copies a record.
pub fn copy_record(r: &Record) -> (o: Record)
    ensures
        o@ == r@,
{
    Record { cf: r.cf, key: to_vec(r.key.as_slice()), seq: r.seq, op: copy_op(&r.op) }
}

/// Applies one operation to the state of a key.
pub fn apply_exec(s: Lookup, op: &Op, mo: Option<MergeOperator>) -> (r: Lookup)
    ensures
        r@ == apply_op(s@, op@, mo),
{
    match op {
        Op::Put(v) => Lookup::Found(to_vec(v.as_slice())),
        Op::Delete => Lookup::Absent,
        Op::Merge(o) => match s {
            Lookup::Unmergeable => Lookup::Unmergeable,
            Lookup::Absent => match mo {
                None => Lookup::Unmergeable,
                Some(m) => match m.full_merge(None, o.as_slice()) {
                    Some(v) => Lookup::Found(v),
                    None => Lookup::Unmergeable,
                },
            },
            Lookup::Found(e) => match mo {
                None => Lookup::Unmergeable,
                Some(m) => match m.full_merge(Some(e.as_slice()), o.as_slice()) {
                    Some(v) => Lookup::Found(v),
                    None => Lookup::Unmergeable,
                },
            },
        },
    }
}

/// Reads `(cf, key)` from the log as of sequence number `horizon`.
pub fn lookup(log: &Vec<Record>, cf: u32, key: &[u8], horizon: u64, mo: Option<MergeOperator>) -> (r:
    Lookup)
    ensures
        r@ == value_at(view_log(log@), cf, key@, horizon, mo),
{
    let mut st = Lookup::Absent;
    let mut i: usize = 0;
    while i < log.len()
        invariant
            i <= log@.len(),
            st@ == value_at(view_log(log@.subrange(0, i as int)), cf, key@, horizon, mo),
        decreases log@.len() - i,
    {
        let r = &log[i];
        proof {
            assert(log@.subrange(0, i + 1) =~= log@.subrange(0, i as int).push(log@[i as int]));
            lemma_view_log_push(log@.subrange(0, i as int), log@[i as int]);
            assert(view_log(log@.subrange(0, i + 1)).drop_last() =~= view_log(
                log@.subrange(0, i as int),
            ));
        }
        if r.cf == cf && r.seq <= horizon && bytes_eq(r.key.as_slice(), key) {
            st = apply_exec(st, &r.op, mo);
        }
        i = i + 1;
    }
    assert(log@.subrange(0, log@.len() as int) =~= log@);
    st
}

/// Up to sequence number `h` the log holds only puts, at most one per key.
pub open spec fn collapsed(l: Seq<RecordView>, h: u64) -> bool {
    &&& forall|i: int| 0 <= i < l.len() && l[i].seq <= h ==> (#[trigger] l[i]).op is Put
    &&& forall|i: int, j: int|
        0 <= i < j < l.len() && l[i].seq <= h && l[j].seq <= h ==> !(#[trigger] l[i].cf == #[trigger] l[j].cf && l[i].key == l[j].key)
}

/// Some record of `l[lo..hi]` is a write to `(cf, key)`.
pub open spec fn occurs_in(l: Seq<RecordView>, lo: int, hi: int, cf: u32, key: Seq<u8>) -> bool {
    exists|j: int| lo <= j < hi && l[j].cf == cf && #[trigger] l[j].key == key
}

/// Whether a later record of `log[..p]` writes the same key as `log[i]`.
fn rewritten_later(log: &Vec<Record>, i: usize, p: usize) -> (r: bool)
    requires
        i < p <= log@.len(),
    ensures
        r == occurs_in(view_log(log@), i + 1, p as int, log@[i as int].cf, log@[i as int].key@),
{
    let mut j: usize = i + 1;
    while j < p
        invariant
            i < j <= p,
            p <= log@.len(),
            !occurs_in(view_log(log@), i + 1, j as int, log@[i as int].cf, log@[i as int].key@),
        decreases p - j,
    {
        if log[j].cf == log[i].cf && bytes_eq(log[j].key.as_slice(), log[i].key.as_slice()) {
            assert(view_log(log@)[j as int].key == log@[i as int].key@);
            return true;
        }
        j = j + 1;
    }
    false
}

/// Collapses every key's history up to `horizon` into at most one record.
///
/// Reads at `horizon` or above see the same values afterwards as before;
/// tombstones and the versions they shadow are dropped, and merge chains are
/// folded into one value. Fails with `Corruption`, changing nothing, where a
/// key's history up to `horizon` holds a merge that cannot be resolved.
pub fn compact_log(log: &Vec<Record>, horizon: u64, mt: &MergeTable) -> (r: Result<
    Vec<Record>,
    Error,
>)
    requires
        seq_sorted(view_log(log@)),
    ensures
        match r {
            Ok(out) => {
                &&& seq_sorted(view_log(out@))
                &&& collapsed(view_log(out@), horizon)
                &&& forall|i: int| 0 <= i < out@.len() ==> exists|j: int| 0 <= j < log@.len() && (#[trigger] out@[i]).cf == log@[j].cf
                &&& forall|last: u64| #[trigger]
                    seqs_bounded(view_log(log@), last) ==> seqs_bounded(view_log(out@), last)
                &&& forall|cf: u32, key: Seq<u8>, h: u64|
                    horizon <= h ==> #[trigger] value_at(view_log(out@), cf, key, h, mt.op_for(cf))
                        == value_at(view_log(log@), cf, key, h, mt.op_for(cf))
                &&& forall|i: int|
                    0 <= i < log@.len() && log@[i].seq <= horizon ==> value_at(
                        view_log(log@),
                        #[trigger] log@[i].cf,
                        log@[i].key@,
                        horizon,
                        mt.op_for(log@[i].cf),
                    ) != ValueState::Unmergeable
            },
            Err(e) => {
                &&& e.kind == ErrorKind::Corruption
                &&& exists|i: int|
                    0 <= i < log@.len() && log@[i].seq <= horizon && value_at(
                        view_log(log@),
                        #[trigger] log@[i].cf,
                        log@[i].key@,
                        horizon,
                        mt.op_for(log@[i].cf),
                    ) == ValueState::Unmergeable
            },
        },
{
    let ghost lv = view_log(log@);
    // The records visible at `horizon` form a prefix of the log.
    let mut p: usize = 0;
    while p < log.len() && log[p].seq <= horizon
        invariant
            p <= log@.len(),
            forall|j: int| 0 <= j < p ==> log@[j].seq <= horizon,
        decreases log@.len() - p,
    {
        p = p + 1;
    }
    proof {
        assert forall|j: int| p <= j < log@.len() implies log@[j].seq > horizon by {
            assert(lv[p as int].seq <= lv[j].seq);
        }
    }
    let ghost pre = lv.subrange(0, p as int);
    let ghost tail = lv.subrange(p as int, lv.len() as int);
    proof {
        assert(lv =~= pre + tail);
        assert forall|cf: u32, key: Seq<u8>|
            #[trigger] value_at(lv, cf, key, horizon, mt.op_for(cf)) == value_at(pre, cf, key, horizon, mt.op_for(cf)) by {
            lemma_fold_concat(ValueState::Absent, pre, tail, cf, key, horizon, mt.op_for(cf));
            assert forall|i: int| 0 <= i < tail.len() implies !visible(
                #[trigger] tail[i],
                cf,
                key,
                horizon,
            ) by {
                assert(tail[i] == lv[p + i]);
            }
            lemma_fold_invisible(
                value_at(pre, cf, key, horizon, mt.op_for(cf)),
                tail,
                cf,
                key,
                horizon,
                mt.op_for(cf),
            );
        }
    }
    let mut out: Vec<Record> = Vec::new();
    proof {
        assert forall|cf: u32, key: Seq<u8>| !occurs_in(lv, 0, p as int, cf, key) implies value_at(
            pre,
            cf,
            key,
            horizon,
            mt.op_for(cf),
        ) == ValueState::Absent by {
            assert forall|j: int| 0 <= j < pre.len() implies !visible(#[trigger] pre[j], cf, key, horizon) by {
                assert(pre[j] == lv[j]);
                if visible(pre[j], cf, key, horizon) {
                    assert(lv[j].cf == cf && lv[j].key == key);
                }
            }
            lemma_fold_invisible(ValueState::Absent, pre, cf, key, horizon, mt.op_for(cf));
        }
        assert(view_log(out@) =~= Seq::<RecordView>::empty());
    }
    let mut i: usize = 0;
    while i < p
        invariant
            i <= p <= log@.len(),
            lv == view_log(log@),
            pre == lv.subrange(0, p as int),
            seq_sorted(lv),
            forall|j: int| 0 <= j < p ==> log@[j].seq <= horizon,
            forall|cf: u32, key: Seq<u8>|
                #[trigger] value_at(lv, cf, key, horizon, mt.op_for(cf)) == value_at(pre, cf, key, horizon, mt.op_for(cf)),
            seq_sorted(view_log(out@)),
            forall|k: int| 0 <= k < out@.len() ==> out@[k].seq <= horizon,
            forall|k: int| 0 <= k < out@.len() && i < p ==> out@[k].seq <= log@[i as int].seq,
            forall|k: int|
                0 <= k < out@.len() ==> exists|j: int| 0 <= j < i && (#[trigger] out@[k]).seq == log@[j].seq && out@[k].cf == log@[j].cf,
            forall|cf: u32, key: Seq<u8>| #[trigger]
                value_at(view_log(out@), cf, key, horizon, mt.op_for(cf)) == if occurs_in(
                    lv,
                    i as int,
                    p as int,
                    cf,
                    key,
                ) {
                    ValueState::Absent
                } else {
                    value_at(pre, cf, key, horizon, mt.op_for(cf))
                },
            forall|j: int|
                0 <= j < i ==> value_at(lv, #[trigger] log@[j].cf, log@[j].key@, horizon, mt.op_for(log@[j].cf))
                    != ValueState::Unmergeable,
            collapsed(view_log(out@), horizon),
            forall|k: int| 0 <= k < out@.len() ==> !occurs_in(lv, i as int, p as int, (#[trigger] out@[k]).cf, out@[k].key@),
        decreases p - i,
    {
        let r = &log[i];
        let ghost cf0 = r.cf;
        let ghost key0 = r.key@;
        assert(lv[i as int] == r@);
        assert(lv[i as int].cf == cf0 && lv[i as int].key == key0);
        assert(occurs_in(lv, i as int, p as int, cf0, key0));
        let st = lookup(log, r.cf, r.key.as_slice(), horizon, mt.get(r.cf));
        let later = rewritten_later(log, i, p);
        let ghost old_out = out@;
        match st {
            Lookup::Unmergeable => {
                return Err(Error::new(ErrorKind::Corruption));
            },
            Lookup::Absent => {},
            Lookup::Found(v) => {
                if !later {
                    let rec = Record { cf: r.cf, key: to_vec(r.key.as_slice()), seq: r.seq, op: Op::Put(v) };
                    proof {
                        assert(occurs_in(lv, i as int, p as int, cf0, key0));
                        lemma_view_log_push(old_out, rec);
                    }
                    out.push(rec);
                }
            },
        }
        proof {
            let ov = view_log(out@);
            assert forall|cf: u32, key: Seq<u8>| #[trigger]
                value_at(view_log(out@), cf, key, horizon, mt.op_for(cf)) == if occurs_in(
                    lv,
                    i + 1,
                    p as int,
                    cf,
                    key,
                ) {
                    ValueState::Absent
                } else {
                    value_at(pre, cf, key, horizon, mt.op_for(cf))
                } by {
                if cf == cf0 && key == key0 {
                    assert(occurs_in(lv, i as int, p as int, cf, key));
                    if later {
                        assert(ov =~= view_log(old_out));
                    }
                } else {
                    if occurs_in(lv, i as int, p as int, cf, key) {
                        let j = choose|j: int| i <= j < p && lv[j].cf == cf && #[trigger] lv[j].key == key;
                        assert(j != i);
                        assert(occurs_in(lv, i + 1, p as int, cf, key));
                    }
                    if ov.len() > view_log(old_out).len() {
                        assert(ov.drop_last() =~= view_log(old_out));
                    } else {
                        assert(ov =~= view_log(old_out));
                    }
                }
            }
            assert forall|k: int|
                0 <= k < out@.len() implies exists|j: int| 0 <= j < i + 1 && (#[trigger] out@[k]).seq == log@[j].seq && out@[k].cf == log@[j].cf by {
                if k < old_out.len() {
                    assert(out@[k] == old_out[k]);
                } else {
                    assert(out@[k].seq == log@[i as int].seq && out@[k].cf == log@[i as int].cf);
                }
            }
            assert forall|k: int| 0 <= k < out@.len() && i + 1 < p implies out@[k].seq <= log@[i + 1].seq by {
                assert(lv[i as int].seq <= lv[i + 1].seq);
                if k < old_out.len() {
                    assert(out@[k] == old_out[k]);
                }
            }
            assert forall|k: int| 0 <= k < out@.len() implies !occurs_in(lv, i + 1, p as int, (#[trigger] out@[k]).cf, out@[k].key@) by {
                if k < old_out.len() {
                    assert(out@[k] == old_out[k]);
                    if occurs_in(lv, i + 1, p as int, out@[k].cf, out@[k].key@) {
                        let j = choose|j: int| i + 1 <= j < p && lv[j].cf == out@[k].cf && #[trigger] lv[j].key == out@[k].key@;
                        assert(occurs_in(lv, i as int, p as int, out@[k].cf, out@[k].key@));
                    }
                } else {
                    assert(out@[k].cf == cf0 && out@[k].key@ == key0);
                }
            }
            assert(collapsed(ov, horizon)) by {
                assert forall|a: int| 0 <= a < ov.len() && ov[a].seq <= horizon implies (#[trigger] ov[a]).op is Put by {
                    if a < view_log(old_out).len() {
                        assert(ov[a] == view_log(old_out)[a]);
                    }
                }
                assert forall|a: int, b: int| 0 <= a < b < ov.len() && ov[a].seq <= horizon && ov[b].seq <= horizon implies !(#[trigger] ov[a].cf == #[trigger] ov[b].cf && ov[a].key == ov[b].key) by {
                    assert(ov[a] == view_log(old_out)[a]);
                    if b < view_log(old_out).len() {
                        assert(ov[b] == view_log(old_out)[b]);
                    } else {
                        assert(old_out[a] == out@[a]);
                        assert(!occurs_in(lv, i as int, p as int, old_out[a].cf, old_out[a].key@));
                        assert(ov[b].cf == cf0 && ov[b].key == key0);
                    }
                }
            }
            assert(seq_sorted(view_log(out@))) by {
                assert forall|a: int, b: int| 0 <= a <= b < ov.len() implies ov[a].seq <= ov[b].seq by {
                    if b >= view_log(old_out).len() {
                        assert(out@[a].seq <= log@[i as int].seq || a == b);
                    } else {
                        assert(ov[a] == view_log(old_out)[a]);
                        assert(ov[b] == view_log(old_out)[b]);
                    }
                }
            }
        }
        i = i + 1;
    }
    let ghost c = view_log(out@);
    let ghost out1 = out@;
    assert(forall|k: int| 0 <= k < out1.len() ==> exists|j: int| 0 <= j < p && (#[trigger] out1[k]).seq == log@[j].seq && out1[k].cf == log@[j].cf);
    let mut j: usize = p;
    while j < log.len()
        invariant
            p <= j <= log@.len(),
            out1.len() <= out@.len(),
            forall|k: int| 0 <= k < out1.len() ==> out@[k] == out1[k],
            lv == view_log(log@),
            view_log(out@) == c + lv.subrange(p as int, j as int),
        decreases log@.len() - j,
    {
        let rec = copy_record(&log[j]);
        proof {
            lemma_view_log_push(out@, rec);
            assert(c + lv.subrange(p as int, j + 1) =~= (c + lv.subrange(p as int, j as int)).push(lv[j as int]));
        }
        out.push(rec);
        assert(forall|k: int| 0 <= k < out1.len() ==> out@[k] == out1[k]);
        j = j + 1;
    }
    proof {
        let ov = view_log(out@);
        assert(ov =~= c + tail);
        assert forall|cf: u32, key: Seq<u8>, h: u64| horizon <= h implies #[trigger] value_at(ov, cf, key, h, mt.op_for(cf))
            == value_at(lv, cf, key, h, mt.op_for(cf)) by {
            assert(value_at(c, cf, key, horizon, mt.op_for(cf)) == value_at(pre, cf, key, horizon, mt.op_for(cf)));
            assert(seqs_bounded(c, horizon));
            assert(seqs_bounded(pre, horizon));
            lemma_fold_horizon(ValueState::Absent, c, cf, key, horizon, h, mt.op_for(cf));
            lemma_fold_horizon(ValueState::Absent, pre, cf, key, horizon, h, mt.op_for(cf));
            lemma_fold_concat(ValueState::Absent, c, tail, cf, key, h, mt.op_for(cf));
            lemma_fold_concat(ValueState::Absent, pre, tail, cf, key, h, mt.op_for(cf));
        }
        assert forall|k: int| 0 <= k < out@.len() implies exists|j: int| 0 <= j < log@.len() && (#[trigger] out@[k]).cf == log@[j].cf by {
            if k < c.len() {
                assert(out@[k] == out1[k]);
                let jj = choose|jj: int| 0 <= jj < p && (#[trigger] out1[k]).seq == log@[jj].seq && out1[k].cf == log@[jj].cf;
            } else {
                assert(ov[k] == lv[p + k - c.len()]);
                assert(out@[k].cf == log@[p + k - c.len()].cf);
            }
        }
        assert(collapsed(ov, horizon)) by {
            assert forall|a: int| 0 <= a < ov.len() && ov[a].seq <= horizon implies (#[trigger] ov[a]).op is Put by {
                if a >= c.len() {
                    assert(ov[a] == lv[p + a - c.len()]);
                }
            }
            assert forall|a: int, b: int| 0 <= a < b < ov.len() && ov[a].seq <= horizon && ov[b].seq <= horizon implies !(#[trigger] ov[a].cf == #[trigger] ov[b].cf && ov[a].key == ov[b].key) by {
                if b >= c.len() {
                    assert(ov[b] == lv[p + b - c.len()]);
                } else {
                    assert(ov[a] == c[a]);
                    assert(ov[b] == c[b]);
                }
            }
        }
        assert forall|last: u64| #[trigger] seqs_bounded(lv, last) implies seqs_bounded(ov, last) by {
            assert forall|k: int| 0 <= k < ov.len() implies ov[k].seq <= last by {
                if k < c.len() {
                    assert(out@[k] == out1[k]);
                    let jj = choose|jj: int| 0 <= jj < p && (#[trigger] out1[k]).seq == log@[jj].seq && out1[k].cf == log@[jj].cf;
                    assert(0 <= jj < p);
                    assert(lv[jj].seq <= last);
                } else {
                    assert(ov[k] == lv[p + k - c.len()]);
                }
            }
        }
        assert forall|a: int, b: int| 0 <= a <= b < ov.len() implies ov[a].seq <= ov[b].seq by {
            if b < c.len() {
            } else if a >= c.len() {
                assert(ov[a] == lv[p + a - c.len()]);
                assert(ov[b] == lv[p + b - c.len()]);
            } else {
                assert(ov[b] == lv[p + b - c.len()]);
            }
        }
        assert forall|i: int|
            0 <= i < log@.len() && log@[i].seq <= horizon implies value_at(
                lv,
                #[trigger] log@[i].cf,
                log@[i].key@,
                horizon,
                mt.op_for(log@[i].cf),
            ) != ValueState::Unmergeable by {
            if i >= p {
                assert(log@[i].seq > horizon);
            }
        }
    }
    Ok(out)
}

} // verus!
