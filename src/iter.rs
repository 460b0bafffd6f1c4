//! Iteration over the live entries of a column family in key order.
use vstd::prelude::*;
use crate::bytes::{bytes_eq, lemma_lex_lt_total, lemma_lex_lt_transitive, lex_less, lex_lt, to_vec};
use crate::db::{ColumnFamily, DBInner, Snapshot};
use crate::error::{Error, ErrorKind};
use crate::merge::MergeOperator;
use crate::storage::{BatchOpView, Storage};
use crate::transaction::{is_watched, txn_records, txn_value, watch_extended, Transaction, TxnStore};
use crate::version::{lemma_fold_invisible, lookup, visible, Lookup, OpView, ValueState};

verus! {

/// A key with its value.
pub struct KeyValue {
    pub key: Vec<u8>,
    pub value: Vec<u8>,
}

/// The keys strictly ascend.
pub open spec fn strictly_sorted(keys: Seq<Seq<u8>>) -> bool {
    forall|a: int, b: int| 0 <= a < b < keys.len() ==> lex_lt(#[trigger] keys[a], #[trigger] keys[b])
}

pub open spec fn key_views(v: Seq<Vec<u8>>) -> Seq<Seq<u8>> {
    v.map_values(|k: Vec<u8>| k@)
}

pub open spec fn entry_keys(v: Seq<KeyValue>) -> Seq<Seq<u8>> {
    v.map_values(|e: KeyValue| e.key@)
}

/// `es` lists, in ascending key order, exactly the keys of column family `cf`
/// that have a value as of `horizon`, each with that value.
pub open spec fn lists_live_entries(es: Seq<KeyValue>, s: Storage, cf: u32, horizon: u64, mo: Option<MergeOperator>) -> bool {
    &&& strictly_sorted(entry_keys(es))
    &&& forall|e: int| 0 <= e < es.len() ==> s.value(cf, (#[trigger] es[e]).key@, horizon, mo) == ValueState::Present(es[e].value@)
    &&& forall|k: Seq<u8>| (#[trigger] s.value(cf, k, horizon, mo)) is Present ==> exists|e: int| 0 <= e < es.len() && #[trigger] es[e].key@ == k
}

/// Adds `k` to a strictly ascending list of keys, unless it is there already.
fn insert_sorted(keys: &mut Vec<Vec<u8>>, k: &[u8])
    requires
        strictly_sorted(key_views(old(keys)@)),
    ensures
        strictly_sorted(key_views(final(keys)@)),
        exists|a: int| 0 <= a < final(keys)@.len() && #[trigger] final(keys)@[a]@ == k@,
        forall|a: int| #![trigger old(keys)@[a]] 0 <= a < old(keys)@.len() ==> exists|b: int| 0 <= b < final(keys)@.len() && #[trigger] final(keys)@[b]@ == old(keys)@[a]@,
{
    let ghost kv = key_views(keys@);
    let mut p: usize = 0;
    while p < keys.len() && lex_less(keys[p].as_slice(), k)
        invariant
            p <= keys@.len(),
            kv == key_views(keys@),
            keys@ == old(keys)@,
            forall|a: int| 0 <= a < p ==> lex_lt(#[trigger] kv[a], k@),
        decreases keys@.len() - p,
    {
        assert(kv[p as int] == keys@[p as int]@);
        p = p + 1;
    }
    if p < keys.len() && bytes_eq(keys[p].as_slice(), k) {
        assert(keys@[p as int]@ == k@);
        assert forall|a: int| #![trigger old(keys)@[a]] 0 <= a < old(keys)@.len() implies exists|b: int| 0 <= b < keys@.len() && #[trigger] keys@[b]@ == old(keys)@[a]@ by {
            assert(keys@[a]@ == old(keys)@[a]@);
        }
        return;
    }
    proof {
        if p < keys@.len() {
            assert(kv[p as int] == keys@[p as int]@);
            assert(kv[p as int] != k@);
            assert(!lex_lt(kv[p as int], k@));
            lemma_lex_lt_total(kv[p as int], k@);
        }
    }
    let ghost old_keys = keys@;
    keys.insert(p, to_vec(k));
    proof {
        let nv = key_views(keys@);
        let pi = p as int;
        assert forall|a: int| 0 <= a < nv.len() implies #[trigger] nv[a] == if a < pi { kv[a] } else if a == pi { k@ } else { kv[a - 1] } by {
            assert(nv[a] == keys@[a]@);
            if a < pi { assert(keys@[a] == old_keys[a]); assert(kv[a] == old_keys[a]@); }
            else if a > pi { assert(keys@[a] == old_keys[a - 1]); assert(kv[a - 1] == old_keys[a - 1]@); }
        }
        assert forall|a: int, b: int| 0 <= a < b < nv.len() implies lex_lt(#[trigger] nv[a], #[trigger] nv[b]) by {
            if b < pi {
                assert(lex_lt(kv[a], kv[b]));
            } else if b == pi {
                assert(lex_lt(kv[a], k@));
            } else if a < pi {
                assert(lex_lt(kv[a], kv[b - 1]));
            } else if a == pi {
                assert(lex_lt(k@, kv[pi]));
                if b - 1 > pi {
                    assert(lex_lt(kv[pi], kv[b - 1]));
                    lemma_lex_lt_transitive(k@, kv[pi], kv[b - 1]);
                }
            } else {
                assert(lex_lt(kv[a - 1], kv[b - 1]));
            }
        }
        assert(keys@[pi]@ == k@);
        assert forall|a: int| #![trigger old_keys[a]] 0 <= a < old_keys.len() implies exists|b: int| 0 <= b < keys@.len() && #[trigger] keys@[b]@ == old_keys[a]@ by {
            if a < pi {
                assert(keys@[a] == old_keys[a]);
            } else {
                assert(keys@[a + 1] == old_keys[a]);
            }
        }
    }
}

/// The distinct keys that column family `cf` has records for, in ascending order.
fn sorted_keys(s: &Storage, cf: u32) -> (keys: Vec<Vec<u8>>)
    ensures
        strictly_sorted(key_views(keys@)),
        forall|r: int| 0 <= r < s.log@.len() && s.log@[r].cf == cf ==> exists|a: int| 0 <= a < keys@.len() && #[trigger] keys@[a]@ == s.log@[r].key@,
{
    let mut keys: Vec<Vec<u8>> = Vec::new();
    let mut i: usize = 0;
    while i < s.log.len()
        invariant
            i <= s.log@.len(),
            strictly_sorted(key_views(keys@)),
            forall|r: int| 0 <= r < i && s.log@[r].cf == cf ==> exists|a: int| 0 <= a < keys@.len() && #[trigger] keys@[a]@ == s.log@[r].key@,
        decreases s.log@.len() - i,
    {
        if s.log[i].cf == cf {
            let ghost before = keys@;
            insert_sorted(&mut keys, s.log[i].key.as_slice());
            proof {
                assert forall|r: int| 0 <= r < i + 1 && s.log@[r].cf == cf implies exists|a: int| 0 <= a < keys@.len() && #[trigger] keys@[a]@ == s.log@[r].key@ by {
                    if r < i {
                        let a = choose|a: int| 0 <= a < before.len() && #[trigger] before[a]@ == s.log@[r].key@;
                        assert(exists|b: int| 0 <= b < keys@.len() && #[trigger] keys@[b]@ == before[a]@);
                        let b = choose|b: int| 0 <= b < keys@.len() && #[trigger] keys@[b]@ == before[a]@;
                    }
                }
            }
        }
        i = i + 1;
    }
    keys
}

/// The live entries of column family `cf` as of `horizon`, in ascending key
/// order; fails with `Corruption` where a key's merge cannot be resolved.
pub fn live_entries(s: &Storage, cf: u32, horizon: u64, mo: Option<MergeOperator>) -> (r: Result<Vec<KeyValue>, Error>)
    ensures
        r.is_ok() ==> lists_live_entries(r.unwrap()@, *s, cf, horizon, mo),
        r.is_err() ==> r == Err::<Vec<KeyValue>, Error>(Error { kind: ErrorKind::Corruption })
            && exists|k: Seq<u8>| #[trigger] s.value(cf, k, horizon, mo) == ValueState::Unmergeable,
{
    let keys = sorted_keys(s, cf);
    let ghost kv = key_views(keys@);
    let mut es: Vec<KeyValue> = Vec::new();
    let mut a: usize = 0;
    while a < keys.len()
        invariant
            a <= keys@.len(),
            kv == key_views(keys@),
            strictly_sorted(kv),
            strictly_sorted(entry_keys(es@)),
            forall|e: int, b: int| 0 <= e < es@.len() && a <= b < kv.len() ==> lex_lt(#[trigger] es@[e].key@, #[trigger] kv[b]),
            forall|e: int| 0 <= e < es@.len() ==> s.value(cf, (#[trigger] es@[e]).key@, horizon, mo) == ValueState::Present(es@[e].value@),
            forall|b: int| 0 <= b < a && (#[trigger] s.value(cf, kv[b], horizon, mo)) is Present ==> exists|e: int| 0 <= e < es@.len() && #[trigger] es@[e].key@ == kv[b],
        decreases keys@.len() - a,
    {
        assert(kv[a as int] == keys@[a as int]@);
        let ghost es0 = es@;
        match lookup(&s.log, cf, keys[a].as_slice(), horizon, mo) {
            Lookup::Unmergeable => {
                return Err(Error::new(ErrorKind::Corruption));
            },
            Lookup::Absent => {},
            Lookup::Found(v) => {
                let ghost before = es@;
                es.push(KeyValue { key: to_vec(keys[a].as_slice()), value: v });
                proof {
                    let n = before.len() as int;
                    assert(es@[n].key@ == kv[a as int]);
                    assert forall|x: int, y: int| 0 <= x < y < es@.len() implies lex_lt(#[trigger] entry_keys(es@)[x], #[trigger] entry_keys(es@)[y]) by {
                        assert(entry_keys(es@)[x] == es@[x].key@);
                        assert(entry_keys(es@)[y] == es@[y].key@);
                        if y == n {
                            assert(es@[x] == before[x]);
                        } else {
                            assert(es@[x] == before[x]);
                            assert(es@[y] == before[y]);
                            assert(entry_keys(before)[x] == before[x].key@);
                            assert(entry_keys(before)[y] == before[y].key@);
                        }
                    }
                    assert forall|e: int| 0 <= e < es@.len() implies s.value(cf, (#[trigger] es@[e]).key@, horizon, mo) == ValueState::Present(es@[e].value@) by {
                        if e < n { assert(es@[e] == before[e]); }
                    }
                    assert forall|b: int| 0 <= b < a + 1 && (#[trigger] s.value(cf, kv[b], horizon, mo)) is Present implies exists|e: int| 0 <= e < es@.len() && #[trigger] es@[e].key@ == kv[b] by {
                        if b < a {
                            let e = choose|e: int| 0 <= e < before.len() && #[trigger] before[e].key@ == kv[b];
                            assert(es@[e] == before[e]);
                        } else {
                            assert(es@[n].key@ == kv[b]);
                        }
                    }
                }
            },
        }
        assert(es@.len() == es0.len() || (es@.len() == es0.len() + 1 && es@[es0.len() as int].key@ == kv[a as int]));
        assert(forall|e: int| 0 <= e < es0.len() ==> es@[e] == es0[e]);
        proof {
            assert forall|e: int, b: int| 0 <= e < es@.len() && a + 1 <= b < kv.len() implies lex_lt(#[trigger] es@[e].key@, #[trigger] kv[b]) by {
                assert(lex_lt(kv[a as int], kv[b]));
                if e < es0.len() {
                    assert(es@[e] == es0[e]);
                    assert(lex_lt(es0[e].key@, kv[a as int]));
                    lemma_lex_lt_transitive(es@[e].key@, kv[a as int], kv[b]);
                }
            }
        }
        a = a + 1;
    }
    proof {
        assert forall|k: Seq<u8>| (#[trigger] s.value(cf, k, horizon, mo)) is Present implies exists|e: int| 0 <= e < es@.len() && #[trigger] es@[e].key@ == k by {
            let lv = s.log_view();
            if !(exists|r: int| 0 <= r < lv.len() && visible(#[trigger] lv[r], cf, k, horizon)) {
                lemma_fold_invisible(ValueState::Absent, lv, cf, k, horizon, mo);
            }
            let r = choose|r: int| 0 <= r < lv.len() && visible(#[trigger] lv[r], cf, k, horizon);
            assert(lv[r] == s.log@[r]@);
            let b = choose|b: int| 0 <= b < keys@.len() && #[trigger] keys@[b]@ == s.log@[r].key@;
            assert(kv[b] == k);
        }
    }
    Ok(es)
}

/// A cursor over a fixed, ascending list of entries. It is not positioned
/// (not valid) until it is seeked.
pub struct DBRawIterator {
    pub entries: Vec<KeyValue>,
    pub pos: usize,
}

impl DBRawIterator {
    pub open spec fn at_entry(&self) -> bool {
        self.pos < self.entries@.len()
    }

    fn over(entries: Vec<KeyValue>) -> (r: DBRawIterator)
        ensures
            r.entries == entries,
            !r.at_entry(),
    {
        let pos = entries.len();
        DBRawIterator { entries, pos }
    }

    /// Whether the cursor is on an entry.
    pub fn valid(&self) -> (r: bool)
        ensures
            r == self.at_entry(),
    {
        self.pos < self.entries.len()
    }

    /// Moves to the smallest key.
    pub fn seek_to_first(&mut self)
        ensures
            final(self).entries == old(self).entries,
            final(self).pos == 0,
    {
        self.pos = 0;
    }

    /// Moves to the largest key (stays invalid when there is none).
    pub fn seek_to_last(&mut self)
        ensures
            final(self).entries == old(self).entries,
            old(self).entries@.len() > 0 ==> final(self).pos == old(self).entries@.len() - 1,
            old(self).entries@.len() == 0 ==> !final(self).at_entry(),
    {
        if self.entries.len() > 0 {
            self.pos = self.entries.len() - 1;
        } else {
            self.pos = 0;
        }
    }

    /// Moves to the next key; past the last one the cursor becomes invalid.
    pub fn next(&mut self)
        ensures
            final(self).entries == old(self).entries,
            old(self).at_entry() ==> final(self).pos == old(self).pos + 1,
            !old(self).at_entry() ==> final(self).pos == old(self).pos,
    {
        if self.pos < self.entries.len() {
            self.pos = self.pos + 1;
        }
    }

    /// Moves to the previous key; before the first one the cursor becomes invalid.
    pub fn prev(&mut self)
        ensures
            final(self).entries == old(self).entries,
            old(self).at_entry() && old(self).pos > 0 ==> final(self).pos == old(self).pos - 1,
            old(self).at_entry() && old(self).pos == 0 ==> !final(self).at_entry(),
            !old(self).at_entry() ==> final(self).pos == old(self).pos,
    {
        if self.pos < self.entries.len() {
            if self.pos == 0 {
                self.pos = self.entries.len();
            } else {
                self.pos = self.pos - 1;
            }
        }
    }

    /// The key under the cursor.
    pub fn key(&self) -> (r: Option<Vec<u8>>)
        ensures
            self.at_entry() ==> r.is_some() && r.unwrap()@ == self.entries@[self.pos as int].key@,
            !self.at_entry() ==> r.is_none(),
    {
        if self.pos < self.entries.len() {
            Some(to_vec(self.entries[self.pos].key.as_slice()))
        } else {
            None
        }
    }

    /// The value under the cursor.
    pub fn value(&self) -> (r: Option<Vec<u8>>)
        ensures
            self.at_entry() ==> r.is_some() && r.unwrap()@ == self.entries@[self.pos as int].value@,
            !self.at_entry() ==> r.is_none(),
    {
        if self.pos < self.entries.len() {
            Some(to_vec(self.entries[self.pos].value.as_slice()))
        } else {
            None
        }
    }
}

impl DBInner {
    /// A cursor over the live entries of a column family, as of now.
    pub fn raw_iterator_cf(&self, cf: ColumnFamily) -> (r: Result<DBRawIterator, Error>)
        ensures
            r.is_ok() ==> lists_live_entries(r.unwrap().entries@, self.storage, cf.id, self.storage.last_seq, self.merges.op_for(cf.id))
                && !r.unwrap().at_entry(),
            r.is_err() ==> r == Err::<DBRawIterator, Error>(Error { kind: ErrorKind::Corruption })
                && exists|k: Seq<u8>| #[trigger] self.storage.value(cf.id, k, self.storage.last_seq, self.merges.op_for(cf.id)) == ValueState::Unmergeable,
    {
        match live_entries(&self.storage, cf.id, self.storage.last_seq, self.merges.get(cf.id)) {
            Ok(es) => Ok(DBRawIterator::over(es)),
            Err(e) => Err(e),
        }
    }

    /// A cursor over the live entries of the default column family, as of now.
    pub fn raw_iterator(&self) -> (r: Result<DBRawIterator, Error>)
        ensures
            r.is_ok() ==> lists_live_entries(r.unwrap().entries@, self.storage, 0, self.storage.last_seq, self.merges.op_for(0))
                && !r.unwrap().at_entry(),
            r.is_err() ==> r == Err::<DBRawIterator, Error>(Error { kind: ErrorKind::Corruption })
                && exists|k: Seq<u8>| #[trigger] self.storage.value(0, k, self.storage.last_seq, self.merges.op_for(0)) == ValueState::Unmergeable,
    {
        self.raw_iterator_cf(ColumnFamily { id: 0 })
    }

    /// A cursor over the live entries of a column family as of a snapshot.
    pub fn raw_iterator_cf_at(&self, snapshot: &Snapshot, cf: ColumnFamily) -> (r: Result<DBRawIterator, Error>)
        ensures
            !self.is_live(*snapshot) ==> r == Err::<DBRawIterator, Error>(Error { kind: ErrorKind::InvalidOperation }),
            r.is_err() ==> !self.is_live(*snapshot) || exists|k: Seq<u8>| #[trigger] self.storage.value(cf.id, k, snapshot.seq, self.merges.op_for(cf.id)) == ValueState::Unmergeable,
            r.is_ok() ==> lists_live_entries(r.unwrap().entries@, self.storage, cf.id, snapshot.seq, self.merges.op_for(cf.id))
                && !r.unwrap().at_entry(),
    {
        let mut i: usize = 0;
        while i < self.snapshots.len()
            invariant
                i <= self.snapshots@.len(),
                forall|j: int| 0 <= j < i ==> self.snapshots@[j] != *snapshot,
            decreases self.snapshots@.len() - i,
        {
            if self.snapshots[i] == *snapshot {
                return match live_entries(&self.storage, cf.id, snapshot.seq, self.merges.get(cf.id)) {
                    Ok(es) => Ok(DBRawIterator::over(es)),
                    Err(e) => Err(e),
                };
            }
            i = i + 1;
        }
        Err(Error::new(ErrorKind::InvalidOperation))
    }
}

/// A key that has a value in the store has a record there.
proof fn lemma_present_has_record(s: Storage, cf: u32, key: Seq<u8>, h: u64, mo: Option<MergeOperator>)
    requires
        s.value(cf, key, h, mo) is Present,
    ensures
        exists|r: int| 0 <= r < s.log@.len() && s.log@[r].cf == cf && #[trigger] s.log@[r].key@ == key,
{
    let lv = s.log_view();
    if !(exists|r: int| 0 <= r < lv.len() && visible(#[trigger] lv[r], cf, key, h)) {
        lemma_fold_invisible(ValueState::Absent, lv, cf, key, h, mo);
    }
    let r = choose|r: int| 0 <= r < lv.len() && visible(#[trigger] lv[r], cf, key, h);
    assert(lv[r] == s.log@[r]@);
}

impl Transaction {
    /// A cursor over the entries of the default column family as the
    /// transaction sees them: its own writes over the database's state at its
    /// read point. An optimistic transaction adds the keys it is shown to its
    /// read-set.
    pub fn raw_iterator(&mut self, store: &TxnStore) -> (r: Result<DBRawIterator, Error>)
        requires
            old(self).wf(),
        ensures
            r.is_ok() ==> {
                let es = r.unwrap().entries@;
                &&& !r.unwrap().at_entry()
                &&& strictly_sorted(entry_keys(es))
                &&& forall|e: int| 0 <= e < es.len() ==> txn_value(*old(self), store.base_db, 0, (#[trigger] es[e]).key@) == ValueState::Present(es[e].value@)
                &&& forall|k: Seq<u8>| (#[trigger] txn_value(*old(self), store.base_db, 0, k)) is Present ==> exists|e: int| 0 <= e < es.len() && #[trigger] es[e].key@ == k
                &&& old(self).optimistic ==> forall|e: int| 0 <= e < es.len() ==> is_watched(final(self).watched@, 0, (#[trigger] es[e]).key@)
            },
            r.is_err() ==> (exists|k: Seq<u8>| #[trigger] txn_value(*old(self), store.base_db, 0, k) == ValueState::Unmergeable)
                || (old(self).snapshot.is_some() && !store.base_db.is_live(old(self).snapshot.unwrap())),
            final(self).wf(),
            final(self).id == old(self).id,
            final(self).optimistic == old(self).optimistic,
            final(self).writes == old(self).writes,
            final(self).locked == old(self).locked,
            final(self).savepoints == old(self).savepoints,
            final(self).snapshot == old(self).snapshot,
            old(self).optimistic ==> watch_extended(old(self).watched@, final(self).watched@, old(self).watch_seq(*store)),
            !old(self).optimistic ==> final(self).watched == old(self).watched,
    {
        let r = self.scan(store);
        match r {
            Err(e) => Err(e),
            Ok(it) => {
                if self.optimistic {
                    let mut e: usize = 0;
                    while e < it.entries.len()
                        invariant
                            e <= it.entries@.len(),
                            self.wf(),
                            self.optimistic,
                            self.id == old(self).id,
                            self.writes == old(self).writes,
                            self.locked == old(self).locked,
                            self.savepoints == old(self).savepoints,
                            self.snapshot == old(self).snapshot,
                            watch_extended(old(self).watched@, self.watched@, old(self).watch_seq(*store)),
                            forall|x: int| 0 <= x < e ==> is_watched(self.watched@, 0, (#[trigger] it.entries@[x]).key@),
                        decreases it.entries@.len() - e,
                    {
                        let ghost w0 = self.watched@;
                        self.watch(store, 0, it.entries[e].key.as_slice());
                        proof {
                            assert forall|x: int| 0 <= x < e + 1 implies is_watched(self.watched@, 0, (#[trigger] it.entries@[x]).key@) by {
                                if x < e {
                                    let i = choose|i: int| 0 <= i < w0.len() && #[trigger] w0[i].cf == 0 && w0[i].key@ == it.entries@[x].key@;
                                    assert(self.watched@[i] == w0[i]);
                                } else if !is_watched(w0, 0, it.entries@[x].key@) {
                                    let n = w0.len() as int;
                                    assert(self.watched@[n].cf == 0 && self.watched@[n].key@ == it.entries@[x].key@);
                                }
                            }
                            assert forall|i: int| 0 <= i < old(self).watched@.len() implies #[trigger] self.watched@[i] == old(self).watched@[i] by {
                                assert(w0[i] == old(self).watched@[i]);
                            }
                            assert forall|i: int| old(self).watched@.len() <= i < self.watched@.len() implies (#[trigger] self.watched@[i]).seq == old(self).watch_seq(*store) by {
                                if i < w0.len() { assert(self.watched@[i] == w0[i]); }
                            }
                        }
                        e = e + 1;
                    }
                }
                Ok(it)
            },
        }
    }

    /// The cursor of `raw_iterator`, without recording reads.
    fn scan(&self, store: &TxnStore) -> (r: Result<DBRawIterator, Error>)
        ensures
            r.is_ok() ==> {
                let es = r.unwrap().entries@;
                &&& !r.unwrap().at_entry()
                &&& strictly_sorted(entry_keys(es))
                &&& forall|e: int| 0 <= e < es.len() ==> txn_value(*self, store.base_db, 0, (#[trigger] es[e]).key@) == ValueState::Present(es[e].value@)
                &&& forall|k: Seq<u8>| (#[trigger] txn_value(*self, store.base_db, 0, k)) is Present ==> exists|e: int| 0 <= e < es.len() && #[trigger] es[e].key@ == k
            },
            r.is_err() ==> (exists|k: Seq<u8>| #[trigger] txn_value(*self, store.base_db, 0, k) == ValueState::Unmergeable)
                || (self.snapshot.is_some() && !store.base_db.is_live(self.snapshot.unwrap())),
    {
        let ghost db = store.base_db;
        let ghost wv = self.write_view();
        let mut keys = sorted_keys(&store.base_db.storage, 0);
        let mut j: usize = 0;
        while j < self.writes.len()
            invariant
                j <= self.writes@.len(),
                db == store.base_db,
                wv == self.write_view(),
                strictly_sorted(key_views(keys@)),
                forall|r: int| #![trigger db.storage.log@[r]] 0 <= r < db.storage.log@.len() && db.storage.log@[r].cf == 0 ==> exists|a: int| 0 <= a < keys@.len() && #[trigger] keys@[a]@ == db.storage.log@[r].key@,
                forall|w: int| #![trigger wv[w]] 0 <= w < j && wv[w].cf == 0 ==> exists|a: int| 0 <= a < keys@.len() && #[trigger] keys@[a]@ == wv[w].key,
            decreases self.writes@.len() - j,
        {
            assert(wv[j as int] == self.writes@[j as int]@);
            if self.writes[j].cf == 0 {
                let ghost before = keys@;
                insert_sorted(&mut keys, self.writes[j].key.as_slice());
                proof {
                    assert forall|r: int| #![trigger db.storage.log@[r]] 0 <= r < db.storage.log@.len() && db.storage.log@[r].cf == 0 implies exists|a: int| 0 <= a < keys@.len() && #[trigger] keys@[a]@ == db.storage.log@[r].key@ by {
                        let a = choose|a: int| 0 <= a < before.len() && #[trigger] before[a]@ == db.storage.log@[r].key@;
                        assert(exists|b: int| 0 <= b < keys@.len() && #[trigger] keys@[b]@ == before[a]@);
                    }
                    assert forall|w: int| #![trigger wv[w]] 0 <= w < j + 1 && wv[w].cf == 0 implies exists|a: int| 0 <= a < keys@.len() && #[trigger] keys@[a]@ == wv[w].key by {
                        if w < j {
                            let a = choose|a: int| 0 <= a < before.len() && #[trigger] before[a]@ == wv[w].key;
                            assert(exists|b: int| 0 <= b < keys@.len() && #[trigger] keys@[b]@ == before[a]@);
                        }
                    }
                }
            }
            j = j + 1;
        }
        let ghost kv = key_views(keys@);
        let mut es: Vec<KeyValue> = Vec::new();
        let mut a: usize = 0;
        while a < keys.len()
            invariant
                a <= keys@.len(),
                db == store.base_db,
                kv == key_views(keys@),
                strictly_sorted(kv),
                strictly_sorted(entry_keys(es@)),
                forall|e: int, b: int| 0 <= e < es@.len() && a <= b < kv.len() ==> lex_lt(#[trigger] es@[e].key@, #[trigger] kv[b]),
                forall|e: int| 0 <= e < es@.len() ==> txn_value(*self, db, 0, (#[trigger] es@[e]).key@) == ValueState::Present(es@[e].value@),
                forall|b: int| 0 <= b < a && (#[trigger] txn_value(*self, db, 0, kv[b])) is Present ==> exists|e: int| 0 <= e < es@.len() && #[trigger] es@[e].key@ == kv[b],
            decreases keys@.len() - a,
        {
            assert(kv[a as int] == keys@[a as int]@);
            let ghost es0 = es@;
            match self.read_cf(store, ColumnFamily { id: 0 }, keys[a].as_slice()) {
                Err(e) => {
                    assert(txn_value(*self, db, 0, kv[a as int]) == ValueState::Unmergeable
                        || (self.snapshot.is_some() && !db.is_live(self.snapshot.unwrap())));
                    return Err(e);
                },
                Ok(None) => {},
                Ok(Some(v)) => {
                    assert(txn_value(*self, db, 0, kv[a as int]) == ValueState::Present(v@));
                    es.push(KeyValue { key: to_vec(keys[a].as_slice()), value: v });
                    proof {
                        let n = es0.len() as int;
                        assert(es@[n].key@ == kv[a as int]);
                        assert forall|x: int, y: int| 0 <= x < y < es@.len() implies lex_lt(#[trigger] entry_keys(es@)[x], #[trigger] entry_keys(es@)[y]) by {
                            assert(entry_keys(es@)[x] == es@[x].key@);
                            assert(entry_keys(es@)[y] == es@[y].key@);
                            assert(es@[x] == es0[x]);
                            if y < n {
                                assert(es@[y] == es0[y]);
                                assert(entry_keys(es0)[x] == es0[x].key@);
                                assert(entry_keys(es0)[y] == es0[y].key@);
                            }
                        }
                        assert forall|e: int| 0 <= e < es@.len() implies txn_value(*self, db, 0, (#[trigger] es@[e]).key@) == ValueState::Present(es@[e].value@) by {
                            if e < n { assert(es@[e] == es0[e]); }
                        }
                        assert forall|b: int| 0 <= b < a + 1 && (#[trigger] txn_value(*self, db, 0, kv[b])) is Present implies exists|e: int| 0 <= e < es@.len() && #[trigger] es@[e].key@ == kv[b] by {
                            if b < a {
                                let e = choose|e: int| 0 <= e < es0.len() && #[trigger] es0[e].key@ == kv[b];
                                assert(es@[e] == es0[e]);
                            } else {
                                assert(es@[n].key@ == kv[b]);
                            }
                        }
                    }
                },
            }
            assert(es@.len() == es0.len() || (es@.len() == es0.len() + 1 && es@[es0.len() as int].key@ == kv[a as int]));
            assert(forall|e: int| 0 <= e < es0.len() ==> es@[e] == es0[e]);
            proof {
                assert forall|e: int, b: int| 0 <= e < es@.len() && a + 1 <= b < kv.len() implies lex_lt(#[trigger] es@[e].key@, #[trigger] kv[b]) by {
                    assert(lex_lt(kv[a as int], kv[b]));
                    if e < es0.len() {
                        assert(es@[e] == es0[e]);
                        assert(lex_lt(es0[e].key@, kv[a as int]));
                        lemma_lex_lt_transitive(es@[e].key@, kv[a as int], kv[b]);
                    }
                }
            }
            a = a + 1;
        }
        proof {
            assert forall|k: Seq<u8>| (#[trigger] txn_value(*self, db, 0, k)) is Present implies exists|e: int| 0 <= e < es@.len() && #[trigger] es@[e].key@ == k by {
                let recs = txn_records(*self);
                let found = if exists|w: int| 0 <= w < recs.len() && visible(#[trigger] recs[w], 0, k, u64::MAX) {
                    let w = choose|w: int| 0 <= w < recs.len() && visible(#[trigger] recs[w], 0, k, u64::MAX);
                    assert(recs[w].key == wv[w].key && recs[w].cf == wv[w].cf);
                    assert(wv[w].cf == 0 && wv[w].key == k);
                    let a = choose|a: int| 0 <= a < keys@.len() && #[trigger] keys@[a]@ == wv[w].key;
                    a
                } else {
                    let base = match self.snapshot { Some(s) => db.at(s, 0, k), None => db.current(0, k) };
                    lemma_fold_invisible(base, recs, 0, k, u64::MAX, db.merges.op_for(0));
                    let h = match self.snapshot { Some(s) => s.seq, None => db.storage.last_seq };
                    lemma_present_has_record(db.storage, 0, k, h, db.merges.op_for(0));
                    let r = choose|r: int| 0 <= r < db.storage.log@.len() && db.storage.log@[r].cf == 0 && #[trigger] db.storage.log@[r].key@ == k;
                    let a = choose|a: int| 0 <= a < keys@.len() && #[trigger] keys@[a]@ == db.storage.log@[r].key@;
                    a
                };
                assert(kv[found] == k);
            }
        }
        Ok(DBRawIterator::over(es))
    }
}

} // verus!
