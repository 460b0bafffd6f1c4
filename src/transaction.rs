//! Transactions: optimistic validation, pessimistic key locks, savepoints
//! and read-your-writes.
use vstd::prelude::*;
use crate::bytes::{bytes_eq, to_vec};
use crate::db::{ColumnFamily, DBInner, Snapshot, WriteBatch};
use crate::error::{Error, ErrorKind};
use crate::storage::{batch_records, batch_view, key_seq, read_result, to_read_result, BatchOp, BatchOpView};
use crate::version::{apply_exec, fold_from, lookup, Op, OpView, RecordView, ValueState};

verus! {

/// A key that an optimistic transaction validates at commit, with the
/// sequence number it was observed at.
pub struct WatchedKey {
    pub cf: u32,
    pub key: Vec<u8>,
    pub seq: u64,
}

/// An entry of the key-lock table of pessimistic transactions; `owner` is
/// the transaction that holds the lock, if any does.
pub struct Lock {
    pub cf: u32,
    pub key: Vec<u8>,
    pub owner: Option<u64>,
}

/// A marker into a transaction: how many writes, watched keys and locks it had.
#[derive(Clone, Copy, Debug, PartialEq, Eq, Structural)]
pub struct Savepoint {
    pub writes: usize,
    pub watched: usize,
    pub locked: usize,
}

/// A key that a pessimistic transaction has locked.
pub struct LockedKey {
    pub cf: u32,
    pub key: Vec<u8>,
}

/// The state that the transactions of one database share: the database, the
/// key-lock table and the counter that names transactions.
///
/// A lock request never waits: it is granted at once or refused with `Busy`
/// (no timeout configured) or `TimedOut`. No transaction ever waits for
/// another, so no cycle of waiting transactions, and no deadlock, can form.
pub struct TxnStore {
    pub base_db: DBInner,
    pub locks: Vec<Lock>,
    pub next_txn_id: u64,
    /// Milliseconds a lock request may wait; 0 fails at once with `Busy`.
    pub lock_timeout: u64,
}

/// `owner` holds the lock on `(cf, key)`.
pub open spec fn held_by(locks: Seq<Lock>, cf: u32, key: Seq<u8>, owner: u64) -> bool {
    exists|i: int| 0 <= i < locks.len() && #[trigger] locks[i].cf == cf && locks[i].key@ == key && locks[i].owner == Some(owner)
}

/// Some transaction other than `me` holds the lock on `(cf, key)`.
pub open spec fn held_by_other(locks: Seq<Lock>, cf: u32, key: Seq<u8>, me: u64) -> bool {
    exists|i: int| 0 <= i < locks.len() && #[trigger] locks[i].cf == cf && locks[i].key@ == key && locks[i].owner.is_some() && locks[i].owner != Some(me)
}

/// At most one entry per key.
pub open spec fn locks_wf(locks: Seq<Lock>) -> bool {
    forall|i: int, j: int| 0 <= i < j < locks.len() ==> !(#[trigger] locks[i].cf == #[trigger] locks[j].cf && locks[i].key@ == locks[j].key@)
}

/// The locks of every transaction but `me` are the same in both tables.
pub open spec fn others_unchanged(a: Seq<Lock>, b: Seq<Lock>, me: u64) -> bool {
    forall|cf: u32, key: Seq<u8>, o: u64| o != me ==> (#[trigger] held_by(a, cf, key, o) <==> held_by(b, cf, key, o))
}

/// `b` is `a` with some locks of `me` released, entry by entry.
pub open spec fn released_from(a: Seq<Lock>, b: Seq<Lock>, me: u64) -> bool {
    &&& a.len() == b.len()
    &&& forall|i: int| 0 <= i < a.len() ==> (#[trigger] b[i]).cf == a[i].cf && b[i].key@ == a[i].key@
        && (b[i].owner == a[i].owner || (a[i].owner == Some(me) && b[i].owner.is_none()))
}

pub proof fn lemma_released_from(a: Seq<Lock>, b: Seq<Lock>, me: u64)
    requires
        released_from(a, b, me),
        locks_wf(a),
    ensures
        locks_wf(b),
        others_unchanged(a, b, me),
        forall|c: u32, k: Seq<u8>| #[trigger] held_by(b, c, k, me) ==> held_by(a, c, k, me),
{
    assert forall|i: int, j: int| 0 <= i < j < b.len() implies !(#[trigger] b[i].cf == #[trigger] b[j].cf && b[i].key@ == b[j].key@) by {
        assert(!(a[i].cf == a[j].cf && a[i].key@ == a[j].key@));
    }
    assert forall|c: u32, k: Seq<u8>, o: u64| o != me implies (#[trigger] held_by(a, c, k, o) <==> held_by(b, c, k, o)) by {
        if held_by(a, c, k, o) {
            let x = choose|x: int| 0 <= x < a.len() && #[trigger] a[x].cf == c && a[x].key@ == k && a[x].owner == Some(o);
            assert(b[x].cf == c);
        }
        if held_by(b, c, k, o) {
            let x = choose|x: int| 0 <= x < b.len() && #[trigger] b[x].cf == c && b[x].key@ == k && b[x].owner == Some(o);
            assert(a[x].cf == c);
        }
    }
    assert forall|c: u32, k: Seq<u8>| #[trigger] held_by(b, c, k, me) implies held_by(a, c, k, me) by {
        let x = choose|x: int| 0 <= x < b.len() && #[trigger] b[x].cf == c && b[x].key@ == k && b[x].owner == Some(me);
        assert(a[x].cf == c);
    }
}

/// Whether `(cf, key)` is among `keys[from..]`.
fn listed(keys: &Vec<LockedKey>, from: usize, cf: u32, key: &[u8]) -> (r: bool)
    requires
        from <= keys@.len(),
    ensures
        r == exists|j: int| from <= j < keys@.len() && #[trigger] keys@[j].cf == cf && keys@[j].key@ == key@,
{
    let mut j: usize = from;
    while j < keys.len()
        invariant
            from <= j <= keys@.len(),
            forall|y: int| from <= y < j ==> !(#[trigger] keys@[y].cf == cf && keys@[y].key@ == key@),
        decreases keys@.len() - j,
    {
        if keys[j].cf == cf && bytes_eq(keys[j].key.as_slice(), key) {
            return true;
        }
        j = j + 1;
    }
    false
}

impl TxnStore {
    pub open spec fn wf(&self) -> bool {
        &&& self.base_db.wf()
        &&& locks_wf(self.locks@)
    }

    /// Takes the lock on `(cf, key)` for transaction `me`, or reports that
    /// another transaction holds it; a request cannot wait here, so with a
    /// timeout it fails with `TimedOut`, without one with `Busy`.
    pub fn acquire(&mut self, me: u64, cf: u32, key: &[u8]) -> (r: Result<bool, Error>)
        requires
            old(self).wf(),
        ensures
            final(self).wf(),
            final(self).base_db == old(self).base_db,
            final(self).next_txn_id == old(self).next_txn_id,
            final(self).lock_timeout == old(self).lock_timeout,
            held_by_other(old(self).locks@, cf, key@, me) ==> *final(self) == *old(self) && r == Err::<bool, Error>(Error {
                kind: if old(self).lock_timeout == 0 { ErrorKind::Busy } else { ErrorKind::TimedOut },
            }),
            !held_by_other(old(self).locks@, cf, key@, me) ==> r.is_ok() && held_by(final(self).locks@, cf, key@, me),
            r == Ok::<bool, Error>(false) ==> final(self).locks == old(self).locks,
            r == Ok::<bool, Error>(true) ==> !held_by(old(self).locks@, cf, key@, me),
            others_unchanged(old(self).locks@, final(self).locks@, me),
            forall|c: u32, k: Seq<u8>| #[trigger] held_by(final(self).locks@, c, k, me) ==> held_by(old(self).locks@, c, k, me) || (c == cf && k == key@),
            forall|c: u32, k: Seq<u8>| #[trigger] held_by(old(self).locks@, c, k, me) ==> held_by(final(self).locks@, c, k, me),
    {
        let ghost before = self.locks@;
        let mut i: usize = 0;
        while i < self.locks.len()
            invariant
                i <= self.locks@.len(),
                self.locks@ == before,
                *self == *old(self),
                self.wf(),
                forall|j: int| 0 <= j < i ==> !(#[trigger] self.locks@[j].cf == cf && self.locks@[j].key@ == key@),
            decreases self.locks@.len() - i,
        {
            if self.locks[i].cf == cf && bytes_eq(self.locks[i].key.as_slice(), key) {
                proof {
                    assert forall|k: int| 0 <= k < before.len() && #[trigger] before[k].cf == cf && before[k].key@ == key@ implies k == i by {
                        if k < i { assert(!(before[k].cf == before[i as int].cf && before[k].key@ == before[i as int].key@)); }
                        else if k > i { assert(!(before[i as int].cf == before[k].cf && before[i as int].key@ == before[k].key@)); }
                    }
                }
                match self.locks[i].owner {
                    Some(o) => {
                        if o != me {
                            let kind = if self.lock_timeout == 0 { ErrorKind::Busy } else { ErrorKind::TimedOut };
                            return Err(Error::new(kind));
                        }
                        return Ok(false);
                    },
                    None => {
                        let entry = Lock { cf, key: to_vec(key), owner: Some(me) };
                        self.locks.set(i, entry);
                        proof {
                            let after = self.locks@;
                            assert(after[i as int].cf == cf && after[i as int].key@ == key@);
                            assert forall|a: int, b: int| 0 <= a < b < after.len() implies !(#[trigger] after[a].cf == #[trigger] after[b].cf && after[a].key@ == after[b].key@) by {
                                assert(!(before[a].cf == before[b].cf && before[a].key@ == before[b].key@));
                            }
                            assert forall|c: u32, k: Seq<u8>, o: u64| o != me implies (#[trigger] held_by(before, c, k, o) <==> held_by(after, c, k, o)) by {
                                if held_by(before, c, k, o) {
                                    let x = choose|x: int| 0 <= x < before.len() && #[trigger] before[x].cf == c && before[x].key@ == k && before[x].owner == Some(o);
                                    assert(x != i);
                                    assert(after[x] == before[x]);
                                }
                                if held_by(after, c, k, o) {
                                    let x = choose|x: int| 0 <= x < after.len() && #[trigger] after[x].cf == c && after[x].key@ == k && after[x].owner == Some(o);
                                    assert(x != i);
                                    assert(after[x] == before[x]);
                                }
                            }
                            assert forall|c: u32, k: Seq<u8>| #[trigger] held_by(after, c, k, me) implies held_by(before, c, k, me) || (c == cf && k == key@) by {
                                let x = choose|x: int| 0 <= x < after.len() && #[trigger] after[x].cf == c && after[x].key@ == k && after[x].owner == Some(me);
                                if x != i { assert(after[x] == before[x]); }
                            }
                            assert forall|c: u32, k: Seq<u8>| #[trigger] held_by(before, c, k, me) implies held_by(after, c, k, me) by {
                                let x = choose|x: int| 0 <= x < before.len() && #[trigger] before[x].cf == c && before[x].key@ == k && before[x].owner == Some(me);
                                assert(x != i);
                                assert(after[x] == before[x]);
                            }
                        }
                        return Ok(true);
                    },
                }
            }
            i = i + 1;
        }
        self.locks.push(Lock { cf, key: to_vec(key), owner: Some(me) });
        proof {
            let after = self.locks@;
            let n = before.len() as int;
            assert(after[n].cf == cf && after[n].key@ == key@ && after[n].owner == Some(me));
            assert forall|a: int, b: int| 0 <= a < b < after.len() implies !(#[trigger] after[a].cf == #[trigger] after[b].cf && after[a].key@ == after[b].key@) by {
                assert(after[a] == before[a]);
                if b < n { assert(after[b] == before[b]); }
            }
            assert forall|c: u32, k: Seq<u8>, o: u64| o != me implies (#[trigger] held_by(before, c, k, o) <==> held_by(after, c, k, o)) by {
                if held_by(before, c, k, o) {
                    let x = choose|x: int| 0 <= x < before.len() && #[trigger] before[x].cf == c && before[x].key@ == k && before[x].owner == Some(o);
                    assert(after[x] == before[x]);
                }
                if held_by(after, c, k, o) {
                    let x = choose|x: int| 0 <= x < after.len() && #[trigger] after[x].cf == c && after[x].key@ == k && after[x].owner == Some(o);
                    assert(x != n);
                    assert(after[x] == before[x]);
                }
            }
            assert forall|c: u32, k: Seq<u8>| #[trigger] held_by(after, c, k, me) implies held_by(before, c, k, me) || (c == cf && k == key@) by {
                let x = choose|x: int| 0 <= x < after.len() && #[trigger] after[x].cf == c && after[x].key@ == k && after[x].owner == Some(me);
                if x != n { assert(after[x] == before[x]); }
            }
            assert forall|c: u32, k: Seq<u8>| #[trigger] held_by(before, c, k, me) implies held_by(after, c, k, me) by {
                let x = choose|x: int| 0 <= x < before.len() && #[trigger] before[x].cf == c && before[x].key@ == k && before[x].owner == Some(me);
                assert(after[x] == before[x]);
            }
        }
        Ok(true)
    }

    /// Releases the locks of transaction `me`: all of them, or those on the
    /// keys of `keys[from..]`.
    pub fn release(&mut self, me: u64, keys: &Vec<LockedKey>, from: usize, all: bool)
        requires
            old(self).wf(),
            from <= keys@.len(),
        ensures
            final(self).wf(),
            final(self).base_db == old(self).base_db,
            final(self).next_txn_id == old(self).next_txn_id,
            final(self).lock_timeout == old(self).lock_timeout,
            others_unchanged(old(self).locks@, final(self).locks@, me),
            forall|c: u32, k: Seq<u8>| #[trigger] held_by(final(self).locks@, c, k, me) ==> held_by(old(self).locks@, c, k, me),
            all ==> forall|c: u32, k: Seq<u8>| !(#[trigger] held_by(final(self).locks@, c, k, me)),
            forall|j: int| from <= j < keys@.len() ==> !held_by(final(self).locks@, #[trigger] keys@[j].cf, keys@[j].key@, me),
            forall|c: u32, k: Seq<u8>| #[trigger] held_by(old(self).locks@, c, k, me) && !all
                && !(exists|j: int| from <= j < keys@.len() && #[trigger] keys@[j].cf == c && keys@[j].key@ == k)
                ==> held_by(final(self).locks@, c, k, me),
    {
        let ghost before = self.locks@;
        let mut i: usize = 0;
        while i < self.locks.len()
            invariant
                i <= self.locks@.len(),
                from <= keys@.len(),
                locks_wf(before),
                before == old(self).locks@,
                self.base_db == old(self).base_db,
                self.next_txn_id == old(self).next_txn_id,
                self.lock_timeout == old(self).lock_timeout,
                released_from(before, self.locks@, me),
                forall|y: int| i <= y < self.locks@.len() ==> #[trigger] self.locks@[y] == before[y],
                forall|y: int| 0 <= y < i ==> (#[trigger] self.locks@[y]).owner == if before[y].owner == Some(me) && (all || exists|j: int| from <= j < keys@.len() && #[trigger] keys@[j].cf == before[y].cf && keys@[j].key@ == before[y].key@) { None } else { before[y].owner },
            decreases self.locks@.len() - i,
        {
            if self.locks[i].owner == Some(me) && (all || listed(keys, from, self.locks[i].cf, self.locks[i].key.as_slice())) {
                let entry = Lock { cf: self.locks[i].cf, key: to_vec(self.locks[i].key.as_slice()), owner: None };
                self.locks.set(i, entry);
            }
            i = i + 1;
        }
        proof {
            let after = self.locks@;
            lemma_released_from(before, after, me);
            assert forall|c: u32, k: Seq<u8>| all implies !(#[trigger] held_by(after, c, k, me)) by {
                if held_by(after, c, k, me) {
                    let x = choose|x: int| 0 <= x < after.len() && #[trigger] after[x].cf == c && after[x].key@ == k && after[x].owner == Some(me);
                }
            }
            assert forall|j: int| from <= j < keys@.len() implies !held_by(after, #[trigger] keys@[j].cf, keys@[j].key@, me) by {
                if held_by(after, keys@[j].cf, keys@[j].key@, me) {
                    let x = choose|x: int| 0 <= x < after.len() && #[trigger] after[x].cf == keys@[j].cf && after[x].key@ == keys@[j].key@ && after[x].owner == Some(me);
                    assert(before[x].cf == keys@[j].cf);
                }
            }
            assert forall|c: u32, k: Seq<u8>| #[trigger] held_by(before, c, k, me) && !all
                && !(exists|j: int| from <= j < keys@.len() && #[trigger] keys@[j].cf == c && keys@[j].key@ == k)
                implies held_by(after, c, k, me) by {
                let x = choose|x: int| 0 <= x < before.len() && #[trigger] before[x].cf == c && before[x].key@ == k && before[x].owner == Some(me);
                assert(after[x].cf == c);
            }
        }
    }
}

/// Every lock that the transaction lists as taken is held by it in the store,
/// and it lists each key once.
pub open spec fn locks_held(t: Transaction, store: TxnStore) -> bool {
    &&& forall|j: int| 0 <= j < t.locked@.len() ==> held_by(store.locks@, (#[trigger] t.locked@[j]).cf, t.locked@[j].key@, t.id)
    &&& forall|a: int, b: int| 0 <= a < b < t.locked@.len() ==> !(#[trigger] t.locked@[a].cf == #[trigger] t.locked@[b].cf
        && t.locked@[a].key@ == t.locked@[b].key@)
}

/// What another transaction does to the lock table leaves this one's locks held.
pub proof fn lemma_locks_held_kept(t: Transaction, s0: TxnStore, s1: TxnStore, other: u64)
    requires
        locks_held(t, s0),
        others_unchanged(s0.locks@, s1.locks@, other),
        t.id != other,
    ensures
        locks_held(t, s1),
{
    assert forall|j: int| 0 <= j < t.locked@.len() implies held_by(s1.locks@, (#[trigger] t.locked@[j]).cf, t.locked@[j].key@, t.id) by {
        assert(held_by(s0.locks@, t.locked@[j].cf, t.locked@[j].key@, t.id));
    }
}

/// Some watched key has been written since it was observed.
pub open spec fn conflicted(watched: Seq<WatchedKey>, log: Seq<RecordView>) -> bool {
    exists|i: int| 0 <= i < watched.len() && key_seq(log, #[trigger] watched[i].cf, watched[i].key@) > watched[i].seq
}

/// `new` keeps the watched keys of `old` and adds only keys observed at
/// sequence number `seq`.
pub open spec fn watch_extended(old: Seq<WatchedKey>, new: Seq<WatchedKey>, seq: u64) -> bool {
    &&& old.len() <= new.len()
    &&& forall|i: int| 0 <= i < old.len() ==> #[trigger] new[i] == old[i]
    &&& forall|i: int| old.len() <= i < new.len() ==> (#[trigger] new[i]).seq == seq
}

/// `(cf, key)` is watched.
pub open spec fn is_watched(watched: Seq<WatchedKey>, cf: u32, key: Seq<u8>) -> bool {
    exists|i: int| 0 <= i < watched.len() && #[trigger] watched[i].cf == cf && watched[i].key@ == key
}

/// An in-progress set of writes, committed atomically or discarded.
///
/// An optimistic transaction watches the keys it reads or writes (its
/// read-set), and fails to commit its writes with `Conflict` where one of
/// them was written by someone else since; a pessimistic one locks those keys instead, until it
/// commits or rolls back. Either kind reads its own writes first. After a
/// commit or a rollback the handle starts a new, empty transaction.
pub struct Transaction {
    pub id: u64,
    pub optimistic: bool,
    pub writes: Vec<BatchOp>,
    pub watched: Vec<WatchedKey>,
    pub locked: Vec<LockedKey>,
    pub savepoints: Vec<Savepoint>,
    pub snapshot: Option<Snapshot>,
}

impl Transaction {
    pub open spec fn wf(&self) -> bool {
        &&& forall|i: int|
            0 <= i < self.savepoints@.len() ==> (#[trigger] self.savepoints@[i]).writes <= self.writes@.len()
                && self.savepoints@[i].watched <= self.watched@.len() && self.savepoints@[i].locked <= self.locked@.len()
        &&& forall|i: int, j: int|
            0 <= i < j < self.savepoints@.len() ==> (#[trigger] self.savepoints@[i]).writes <= (#[trigger] self.savepoints@[j]).writes
                && self.savepoints@[i].watched <= self.savepoints@[j].watched && self.savepoints@[i].locked <= self.savepoints@[j].locked
    }

    pub open spec fn write_view(&self) -> Seq<BatchOpView> {
        batch_view(self.writes@)
    }

    /// The sequence number that watched keys are observed at.
    pub open spec fn watch_seq(&self, store: TxnStore) -> u64 {
        match self.snapshot {
            Some(s) => if s.seq <= store.base_db.storage.last_seq { s.seq } else { store.base_db.storage.last_seq },
            None => store.base_db.storage.last_seq,
        }
    }

    /// The pinned snapshot, if the transaction was begun with one.
    pub fn snapshot(&self) -> (r: Option<Snapshot>)
        ensures
            r == self.snapshot,
    {
        self.snapshot
    }

    pub(crate) fn watch(&mut self, store: &TxnStore, cf: u32, key: &[u8])
        requires
            old(self).wf(),
        ensures
            final(self).wf(),
            final(self).id == old(self).id,
            final(self).optimistic == old(self).optimistic,
            final(self).writes == old(self).writes,
            final(self).locked == old(self).locked,
            final(self).savepoints == old(self).savepoints,
            final(self).snapshot == old(self).snapshot,
            is_watched(old(self).watched@, cf, key@) ==> final(self).watched == old(self).watched,
            !is_watched(old(self).watched@, cf, key@) ==> final(self).watched@.len() == old(self).watched@.len() + 1
                && final(self).watched@.drop_last() == old(self).watched@
                && final(self).watched@.last().cf == cf && final(self).watched@.last().key@ == key@
                && final(self).watched@.last().seq == old(self).watch_seq(*store),
            watch_extended(old(self).watched@, final(self).watched@, old(self).watch_seq(*store)),
    {
        let mut i: usize = 0;
        while i < self.watched.len()
            invariant
                i <= self.watched@.len(),
                *self == *old(self),
                self.wf(),
                forall|j: int| 0 <= j < i ==> !(#[trigger] self.watched@[j].cf == cf && self.watched@[j].key@ == key@),
            decreases self.watched@.len() - i,
        {
            if self.watched[i].cf == cf && bytes_eq(self.watched[i].key.as_slice(), key) {
                return;
            }
            i = i + 1;
        }
        let last = store.base_db.storage.last_seq;
        let seq = match self.snapshot {
            Some(s) => if s.seq <= last { s.seq } else { last },
            None => last,
        };
        self.watched.push(WatchedKey { cf, key: to_vec(key), seq });
        assert(self.watched@.drop_last() =~= old(self).watched@);
        assert(forall|i: int| 0 <= i < old(self).watched@.len() ==> self.watched@[i] == self.watched@.drop_last()[i]);
        proof {
            assert forall|i: int| 0 <= i < self.savepoints@.len() implies (#[trigger] self.savepoints@[i]).writes <= self.writes@.len()
                && self.savepoints@[i].watched <= self.watched@.len() && self.savepoints@[i].locked <= self.locked@.len() by {
                assert(old(self).savepoints@[i] == self.savepoints@[i]);
            }
        }
    }

    /// Takes the lock on `(cf, key)` for a pessimistic transaction, listing it
    /// when it is newly taken.
    fn take_lock(&mut self, store: &mut TxnStore, cf: u32, key: &[u8]) -> (r: Result<(), Error>)
        requires
            old(self).wf(),
            old(store).wf(),
        ensures
            final(self).wf(),
            final(store).wf(),
            final(store).base_db == old(store).base_db,
            final(store).lock_timeout == old(store).lock_timeout,
            final(store).next_txn_id == old(store).next_txn_id,
            final(self).id == old(self).id,
            final(self).optimistic == old(self).optimistic,
            final(self).writes == old(self).writes,
            final(self).watched == old(self).watched,
            final(self).savepoints == old(self).savepoints,
            final(self).snapshot == old(self).snapshot,
            held_by_other(old(store).locks@, cf, key@, old(self).id) ==> *final(self) == *old(self) && *final(store) == *old(store)
                && r == Err::<(), Error>(Error { kind: if old(store).lock_timeout == 0 { ErrorKind::Busy } else { ErrorKind::TimedOut } }),
            !held_by_other(old(store).locks@, cf, key@, old(self).id) ==> r.is_ok() && held_by(final(store).locks@, cf, key@, old(self).id),
            others_unchanged(old(store).locks@, final(store).locks@, old(self).id),
            forall|c: u32, k: Seq<u8>| #[trigger] held_by(old(store).locks@, c, k, old(self).id) ==> held_by(final(store).locks@, c, k, old(self).id),
            locks_held(*old(self), *old(store)) ==> locks_held(*final(self), *final(store)),
    {
        match store.acquire(self.id, cf, key) {
            Err(e) => Err(e),
            Ok(fresh) => {
                let ghost l0 = self.locked@;
                if fresh {
                    self.locked.push(LockedKey { cf, key: to_vec(key) });
                }
                proof {
                    if locks_held(*old(self), *old(store)) {
                        let t = *self;
                        assert forall|j: int| 0 <= j < t.locked@.len() implies held_by(store.locks@, (#[trigger] t.locked@[j]).cf, t.locked@[j].key@, t.id) by {
                            if j < l0.len() {
                                assert(t.locked@[j] == l0[j]);
                                assert(held_by(old(store).locks@, l0[j].cf, l0[j].key@, t.id));
                            }
                        }
                        assert forall|a: int, b: int| 0 <= a < b < t.locked@.len() implies !(#[trigger] t.locked@[a].cf == #[trigger] t.locked@[b].cf
                            && t.locked@[a].key@ == t.locked@[b].key@) by {
                            assert(t.locked@[a] == l0[a]);
                            if b < l0.len() {
                                assert(t.locked@[b] == l0[b]);
                            } else {
                                assert(held_by(old(store).locks@, l0[a].cf, l0[a].key@, t.id));
                            }
                        }
                    }
                    assert forall|i: int| 0 <= i < self.savepoints@.len() implies (#[trigger] self.savepoints@[i]).writes <= self.writes@.len()
                        && self.savepoints@[i].watched <= self.watched@.len() && self.savepoints@[i].locked <= self.locked@.len() by {
                        assert(old(self).savepoints@[i] == self.savepoints@[i]);
                    }
                }
                Ok(())
            },
        }
    }

    /// Adds one write to the transaction: a pessimistic transaction first
    /// takes the key's lock, an optimistic one starts watching the key.
    pub fn write_op(&mut self, store: &mut TxnStore, cf: u32, key: &[u8], op: Op) -> (r: Result<(), Error>)
        requires
            old(self).wf(),
            old(store).wf(),
        ensures
            locks_held(*old(self), *old(store)) ==> locks_held(*final(self), *final(store)),
            old(self).optimistic ==> watch_extended(old(self).watched@, final(self).watched@, old(self).watch_seq(*old(store))),
            !old(self).optimistic ==> final(self).watched == old(self).watched,
            final(self).wf(),
            final(store).wf(),
            final(store).lock_timeout == old(store).lock_timeout,
            final(store).next_txn_id == old(store).next_txn_id,
            final(store).base_db == old(store).base_db,
            final(self).id == old(self).id,
            final(self).optimistic == old(self).optimistic,
            final(self).snapshot == old(self).snapshot,
            final(self).savepoints == old(self).savepoints,
            op is Merge && old(store).base_db.merges.op_for(cf).is_none() ==> r == Err::<(), Error>(Error { kind: ErrorKind::InvalidOperation })
                && *final(self) == *old(self) && *final(store) == *old(store),
            !(op is Merge && old(store).base_db.merges.op_for(cf).is_none()) && !old(self).optimistic && held_by_other(old(store).locks@, cf, key@, old(self).id)
                ==> *final(self) == *old(self) && *final(store) == *old(store) && r == Err::<(), Error>(Error {
                kind: if old(store).lock_timeout == 0 { ErrorKind::Busy } else { ErrorKind::TimedOut },
            }),
            !(op is Merge && old(store).base_db.merges.op_for(cf).is_none()) && (old(self).optimistic || !held_by_other(old(store).locks@, cf, key@, old(self).id)) ==> r.is_ok(),
            r.is_ok() ==> {
                &&& final(self).write_view() == old(self).write_view().push(BatchOpView { cf, key: key@, op: op@ })
                &&& !old(self).optimistic ==> held_by(final(store).locks@, cf, key@, old(self).id)
                &&& old(self).optimistic ==> final(store).locks == old(store).locks && is_watched(final(self).watched@, cf, key@)
            },
            others_unchanged(old(store).locks@, final(store).locks@, old(self).id),
            forall|c: u32, k: Seq<u8>| #[trigger] held_by(old(store).locks@, c, k, old(self).id) ==> held_by(final(store).locks@, c, k, old(self).id),
    {
        match &op {
            Op::Merge(_) => {
                if store.base_db.merges.get(cf).is_none() {
                    return Err(Error::new(ErrorKind::InvalidOperation));
                }
            },
            _ => {},
        }
        if self.optimistic {
            self.watch(store, cf, key);
            proof {
                if !is_watched(old(self).watched@, cf, key@) {
                    let n = old(self).watched@.len() as int;
                    assert(self.watched@[n].cf == cf && self.watched@[n].key@ == key@);
                }
            }
        } else {
            match self.take_lock(store, cf, key) {
                Err(e) => {
                    return Err(e);
                },
                Ok(_) => {},
            }
        }
        let ghost opv = op@;
        self.writes.push(BatchOp { cf, key: to_vec(key), op });
        assert(self.write_view() =~= old(self).write_view().push(BatchOpView { cf, key: key@, op: opv }));
        Ok(())
    }

    pub fn put_cf(&mut self, store: &mut TxnStore, cf: ColumnFamily, key: &[u8], value: &[u8]) -> (r: Result<(), Error>)
        requires
            old(self).wf(),
            old(store).wf(),
        ensures
            locks_held(*old(self), *old(store)) ==> locks_held(*final(self), *final(store)),
            final(self).savepoints == old(self).savepoints,
            old(self).optimistic ==> watch_extended(old(self).watched@, final(self).watched@, old(self).watch_seq(*old(store))),
            !old(self).optimistic ==> final(self).watched == old(self).watched,
            final(self).wf(),
            final(store).wf(),
            final(store).lock_timeout == old(store).lock_timeout,
            final(store).next_txn_id == old(store).next_txn_id,
            final(store).base_db == old(store).base_db,
            final(self).id == old(self).id,
            final(self).optimistic == old(self).optimistic,
            final(self).snapshot == old(self).snapshot,
            !old(self).optimistic && held_by_other(old(store).locks@, cf.id, key@, old(self).id) ==> *final(self) == *old(self) && *final(store) == *old(store)
                && r == Err::<(), Error>(Error { kind: if old(store).lock_timeout == 0 { ErrorKind::Busy } else { ErrorKind::TimedOut } }),
            (old(self).optimistic || !held_by_other(old(store).locks@, cf.id, key@, old(self).id)) ==> r.is_ok(),
            r.is_ok() ==> final(self).write_view() == old(self).write_view().push(BatchOpView { cf: cf.id, key: key@, op: OpView::Put(value@) }),
            r.is_ok() && !old(self).optimistic ==> held_by(final(store).locks@, cf.id, key@, old(self).id),
            r.is_ok() && old(self).optimistic ==> is_watched(final(self).watched@, cf.id, key@),
            others_unchanged(old(store).locks@, final(store).locks@, old(self).id),
    {
        self.write_op(store, cf.id, key, Op::Put(to_vec(value)))
    }

    pub fn delete_cf(&mut self, store: &mut TxnStore, cf: ColumnFamily, key: &[u8]) -> (r: Result<(), Error>)
        requires
            old(self).wf(),
            old(store).wf(),
        ensures
            locks_held(*old(self), *old(store)) ==> locks_held(*final(self), *final(store)),
            final(self).savepoints == old(self).savepoints,
            old(self).optimistic ==> watch_extended(old(self).watched@, final(self).watched@, old(self).watch_seq(*old(store))),
            !old(self).optimistic ==> final(self).watched == old(self).watched,
            final(self).wf(),
            final(store).wf(),
            final(store).lock_timeout == old(store).lock_timeout,
            final(store).next_txn_id == old(store).next_txn_id,
            final(store).base_db == old(store).base_db,
            final(self).id == old(self).id,
            final(self).optimistic == old(self).optimistic,
            final(self).snapshot == old(self).snapshot,
            !old(self).optimistic && held_by_other(old(store).locks@, cf.id, key@, old(self).id) ==> *final(self) == *old(self) && *final(store) == *old(store)
                && r == Err::<(), Error>(Error { kind: if old(store).lock_timeout == 0 { ErrorKind::Busy } else { ErrorKind::TimedOut } }),
            (old(self).optimistic || !held_by_other(old(store).locks@, cf.id, key@, old(self).id)) ==> r.is_ok(),
            r.is_ok() ==> final(self).write_view() == old(self).write_view().push(BatchOpView { cf: cf.id, key: key@, op: OpView::Delete }),
            others_unchanged(old(store).locks@, final(store).locks@, old(self).id),
    {
        self.write_op(store, cf.id, key, Op::Delete)
    }

    pub fn merge_cf(&mut self, store: &mut TxnStore, cf: ColumnFamily, key: &[u8], operand: &[u8]) -> (r: Result<(), Error>)
        requires
            old(self).wf(),
            old(store).wf(),
        ensures
            locks_held(*old(self), *old(store)) ==> locks_held(*final(self), *final(store)),
            final(self).savepoints == old(self).savepoints,
            old(self).optimistic ==> watch_extended(old(self).watched@, final(self).watched@, old(self).watch_seq(*old(store))),
            !old(self).optimistic ==> final(self).watched == old(self).watched,
            final(self).wf(),
            final(store).wf(),
            final(store).lock_timeout == old(store).lock_timeout,
            final(store).next_txn_id == old(store).next_txn_id,
            final(store).base_db == old(store).base_db,
            final(self).id == old(self).id,
            final(self).optimistic == old(self).optimistic,
            final(self).snapshot == old(self).snapshot,
            old(store).base_db.merges.op_for(cf.id).is_none() ==> r == Err::<(), Error>(Error { kind: ErrorKind::InvalidOperation }),
            old(store).base_db.merges.op_for(cf.id).is_some() && (old(self).optimistic || !held_by_other(old(store).locks@, cf.id, key@, old(self).id)) ==> r.is_ok(),
            r.is_ok() ==> final(self).write_view() == old(self).write_view().push(BatchOpView { cf: cf.id, key: key@, op: OpView::Merge(operand@) }),
            others_unchanged(old(store).locks@, final(store).locks@, old(self).id),
    {
        self.write_op(store, cf.id, key, Op::Merge(to_vec(operand)))
    }

    pub fn put(&mut self, store: &mut TxnStore, key: &[u8], value: &[u8]) -> (r: Result<(), Error>)
        requires
            old(self).wf(),
            old(store).wf(),
        ensures
            locks_held(*old(self), *old(store)) ==> locks_held(*final(self), *final(store)),
            final(self).savepoints == old(self).savepoints,
            old(self).optimistic ==> watch_extended(old(self).watched@, final(self).watched@, old(self).watch_seq(*old(store))),
            !old(self).optimistic ==> final(self).watched == old(self).watched,
            final(self).wf(),
            final(store).wf(),
            final(store).lock_timeout == old(store).lock_timeout,
            final(store).next_txn_id == old(store).next_txn_id,
            final(store).base_db == old(store).base_db,
            final(self).id == old(self).id,
            final(self).optimistic == old(self).optimistic,
            final(self).snapshot == old(self).snapshot,
            !old(self).optimistic && held_by_other(old(store).locks@, 0, key@, old(self).id) ==> *final(self) == *old(self) && *final(store) == *old(store)
                && r == Err::<(), Error>(Error { kind: if old(store).lock_timeout == 0 { ErrorKind::Busy } else { ErrorKind::TimedOut } }),
            (old(self).optimistic || !held_by_other(old(store).locks@, 0, key@, old(self).id)) ==> r.is_ok(),
            r.is_ok() ==> final(self).write_view() == old(self).write_view().push(BatchOpView { cf: 0, key: key@, op: OpView::Put(value@) }),
            r.is_ok() && !old(self).optimistic ==> held_by(final(store).locks@, 0, key@, old(self).id),
            r.is_ok() && old(self).optimistic ==> is_watched(final(self).watched@, 0, key@),
            others_unchanged(old(store).locks@, final(store).locks@, old(self).id),
    {
        self.put_cf(store, ColumnFamily { id: 0 }, key, value)
    }

    pub fn delete(&mut self, store: &mut TxnStore, key: &[u8]) -> (r: Result<(), Error>)
        requires
            old(self).wf(),
            old(store).wf(),
        ensures
            locks_held(*old(self), *old(store)) ==> locks_held(*final(self), *final(store)),
            final(self).savepoints == old(self).savepoints,
            old(self).optimistic ==> watch_extended(old(self).watched@, final(self).watched@, old(self).watch_seq(*old(store))),
            !old(self).optimistic ==> final(self).watched == old(self).watched,
            final(self).wf(),
            final(store).wf(),
            final(store).lock_timeout == old(store).lock_timeout,
            final(store).next_txn_id == old(store).next_txn_id,
            final(store).base_db == old(store).base_db,
            final(self).id == old(self).id,
            final(self).optimistic == old(self).optimistic,
            final(self).snapshot == old(self).snapshot,
            (old(self).optimistic || !held_by_other(old(store).locks@, 0, key@, old(self).id)) ==> r.is_ok(),
            r.is_ok() ==> final(self).write_view() == old(self).write_view().push(BatchOpView { cf: 0, key: key@, op: OpView::Delete }),
            others_unchanged(old(store).locks@, final(store).locks@, old(self).id),
    {
        self.delete_cf(store, ColumnFamily { id: 0 }, key)
    }

    pub fn merge(&mut self, store: &mut TxnStore, key: &[u8], operand: &[u8]) -> (r: Result<(), Error>)
        requires
            old(self).wf(),
            old(store).wf(),
        ensures
            locks_held(*old(self), *old(store)) ==> locks_held(*final(self), *final(store)),
            final(self).savepoints == old(self).savepoints,
            old(self).optimistic ==> watch_extended(old(self).watched@, final(self).watched@, old(self).watch_seq(*old(store))),
            !old(self).optimistic ==> final(self).watched == old(self).watched,
            final(self).wf(),
            final(store).wf(),
            final(store).lock_timeout == old(store).lock_timeout,
            final(store).next_txn_id == old(store).next_txn_id,
            final(store).base_db == old(store).base_db,
            final(self).id == old(self).id,
            final(self).optimistic == old(self).optimistic,
            final(self).snapshot == old(self).snapshot,
            old(store).base_db.merges.op_for(0).is_none() ==> r == Err::<(), Error>(Error { kind: ErrorKind::InvalidOperation }),
            old(store).base_db.merges.op_for(0).is_some() && (old(self).optimistic || !held_by_other(old(store).locks@, 0, key@, old(self).id)) ==> r.is_ok(),
            r.is_ok() ==> final(self).write_view() == old(self).write_view().push(BatchOpView { cf: 0, key: key@, op: OpView::Merge(operand@) }),
            others_unchanged(old(store).locks@, final(store).locks@, old(self).id),
    {
        self.merge_cf(store, ColumnFamily { id: 0 }, key, operand)
    }
}

/// The transaction's writes, as the records the database would hold for them.
pub open spec fn txn_records(txn: Transaction) -> Seq<RecordView> {
    batch_records(txn.write_view(), 0)
}

/// What a transaction sees for `(cf, key)`: the database's value at its read
/// point (the pinned snapshot, or now) with the transaction's own writes to
/// the key applied on top, in order; pending merge operands fold onto the
/// value beneath them with the family's merge operator.
pub open spec fn txn_value(txn: Transaction, db: DBInner, cf: u32, key: Seq<u8>) -> ValueState {
    let base = match txn.snapshot {
        Some(s) => db.at(s, cf, key),
        None => db.current(cf, key),
    };
    fold_from(base, txn_records(txn), cf, key, u64::MAX, db.merges.op_for(cf))
}

/// What a transaction's read of `(cf, key)` returns: `txn_value`, or a refusal
/// where its pinned snapshot is no longer live.
pub open spec fn txn_read(txn: Transaction, db: DBInner, cf: u32, key: Seq<u8>, r: Result<Option<Vec<u8>>, Error>) -> bool {
    if txn.snapshot.is_some() && !db.is_live(txn.snapshot.unwrap()) {
        r == Err::<Option<Vec<u8>>, Error>(Error { kind: ErrorKind::InvalidOperation })
    } else {
        read_result(txn_value(txn, db, cf, key), r)
    }
}

/// What a read leaves behind in a transaction: nothing but, in an optimistic
/// one, the key added to the read-set when it is not there yet.
pub open spec fn read_recorded(old: Transaction, new: Transaction, store: TxnStore, cf: u32, key: Seq<u8>) -> bool {
    &&& new.wf()
    &&& new.id == old.id
    &&& new.optimistic == old.optimistic
    &&& new.writes == old.writes
    &&& new.locked == old.locked
    &&& new.savepoints == old.savepoints
    &&& new.snapshot == old.snapshot
    &&& old.optimistic ==> watch_extended(old.watched@, new.watched@, old.watch_seq(store))
        && is_watched(new.watched@, cf, key)
    &&& !old.optimistic ==> new.watched == old.watched
}

impl Transaction {
    /// Reads a key: the transaction's own writes first, then the database.
    /// An optimistic transaction adds the key to its read-set, which commit
    /// validates.
    pub fn get_cf(&mut self, store: &TxnStore, cf: ColumnFamily, key: &[u8]) -> (r: Result<Option<Vec<u8>>, Error>)
        requires
            old(self).wf(),
        ensures
            txn_read(*old(self), store.base_db, cf.id, key@, r),
            read_recorded(*old(self), *final(self), *store, cf.id, key@),
    {
        if self.optimistic {
            self.watch(store, cf.id, key);
            proof {
                if !is_watched(old(self).watched@, cf.id, key@) {
                    let n = old(self).watched@.len() as int;
                    assert(self.watched@[n].cf == cf.id && self.watched@[n].key@ == key@);
                }
            }
        }
        self.read_cf(store, cf, key)
    }

    /// Reads a key without recording it.
    pub(crate) fn read_cf(&self, store: &TxnStore, cf: ColumnFamily, key: &[u8]) -> (r: Result<Option<Vec<u8>>, Error>)
        ensures
            txn_read(*self, store.base_db, cf.id, key@, r),
    {
        let db = &store.base_db;
        let mo = db.merges.get(cf.id);
        let base = match self.snapshot {
            Some(s) => match db.find_snapshot(s) {
                None => {
                    return Err(Error::new(ErrorKind::InvalidOperation));
                },
                Some(_) => lookup(&db.storage.log, cf.id, key, s.seq, mo),
            },
            None => lookup(&db.storage.log, cf.id, key, db.storage.last_seq, mo),
        };
        let ghost b0 = base@;
        let ghost recs = txn_records(*self);
        let mut st = base;
        let mut i: usize = 0;
        assert(recs.subrange(0, 0) =~= Seq::<RecordView>::empty());
        while i < self.writes.len()
            invariant
                i <= self.writes@.len(),
                recs == txn_records(*self),
                mo == db.merges.op_for(cf.id),
                st@ == fold_from(b0, recs.subrange(0, i as int), cf.id, key@, u64::MAX, mo),
            decreases self.writes@.len() - i,
        {
            let w = &self.writes[i];
            proof {
                let sub = recs.subrange(0, i + 1);
                assert(sub.drop_last() =~= recs.subrange(0, i as int));
                assert(sub.last() == recs[i as int]);
                assert(self.write_view()[i as int] == w@);
            }
            if w.cf == cf.id && bytes_eq(w.key.as_slice(), key) {
                st = apply_exec(st, &w.op, mo);
            }
            i = i + 1;
        }
        assert(recs.subrange(0, self.writes@.len() as int) =~= recs);
        to_read_result(st)
    }

    /// Reads a key of the default column family.
    pub fn get(&mut self, store: &TxnStore, key: &[u8]) -> (r: Result<Option<Vec<u8>>, Error>)
        requires
            old(self).wf(),
        ensures
            txn_read(*old(self), store.base_db, 0, key@, r),
            read_recorded(*old(self), *final(self), *store, 0, key@),
    {
        self.get_cf(store, ColumnFamily { id: 0 }, key)
    }

    /// Reads a key and claims it: an optimistic transaction watches it, a
    /// pessimistic one locks it.
    pub fn get_for_update_cf(&mut self, store: &mut TxnStore, cf: ColumnFamily, key: &[u8]) -> (r: Result<Option<Vec<u8>>, Error>)
        requires
            old(self).wf(),
            old(store).wf(),
        ensures
            locks_held(*old(self), *old(store)) ==> locks_held(*final(self), *final(store)),
            final(self).savepoints == old(self).savepoints,
            old(self).optimistic ==> watch_extended(old(self).watched@, final(self).watched@, old(self).watch_seq(*old(store))),
            !old(self).optimistic ==> final(self).watched == old(self).watched,
            final(self).wf(),
            final(store).wf(),
            final(store).lock_timeout == old(store).lock_timeout,
            final(store).next_txn_id == old(store).next_txn_id,
            final(store).base_db == old(store).base_db,
            final(self).id == old(self).id,
            final(self).optimistic == old(self).optimistic,
            final(self).snapshot == old(self).snapshot,
            final(self).writes == old(self).writes,
            !old(self).optimistic && held_by_other(old(store).locks@, cf.id, key@, old(self).id) ==> r.is_err() && *final(self) == *old(self) && *final(store) == *old(store),
            old(self).optimistic ==> is_watched(final(self).watched@, cf.id, key@) && final(store).locks == old(store).locks,
            old(self).optimistic || !held_by_other(old(store).locks@, cf.id, key@, old(self).id) ==> txn_read(*final(self), final(store).base_db, cf.id, key@, r),
            !old(self).optimistic && !held_by_other(old(store).locks@, cf.id, key@, old(self).id) ==> held_by(final(store).locks@, cf.id, key@, old(self).id),
            others_unchanged(old(store).locks@, final(store).locks@, old(self).id),
    {
        if self.optimistic {
            self.watch(store, cf.id, key);
            proof {
                if !is_watched(old(self).watched@, cf.id, key@) {
                    let n = old(self).watched@.len() as int;
                    assert(self.watched@[n].cf == cf.id && self.watched@[n].key@ == key@);
                }
            }
        } else {
            match self.take_lock(store, cf.id, key) {
                Err(e) => {
                    return Err(e);
                },
                Ok(_) => {},
            }
        }
        self.read_cf(store, cf, key)
    }

    /// Marks the current point of the transaction.
    pub fn set_savepoint(&mut self)
        requires
            old(self).wf(),
        ensures
            final(self).wf(),
            final(self).savepoints@ == old(self).savepoints@.push(Savepoint {
                writes: old(self).writes@.len() as usize,
                watched: old(self).watched@.len() as usize,
                locked: old(self).locked@.len() as usize,
            }),
            final(self).writes == old(self).writes,
            final(self).watched == old(self).watched,
            final(self).locked == old(self).locked,
            final(self).id == old(self).id,
            final(self).optimistic == old(self).optimistic,
            final(self).snapshot == old(self).snapshot,
    {
        let sp = Savepoint { writes: self.writes.len(), watched: self.watched.len(), locked: self.locked.len() };
        self.savepoints.push(sp);
        proof {
            assert forall|i: int| 0 <= i < self.savepoints@.len() implies (#[trigger] self.savepoints@[i]).writes <= self.writes@.len()
                && self.savepoints@[i].watched <= self.watched@.len() && self.savepoints@[i].locked <= self.locked@.len() by {
                if i < old(self).savepoints@.len() { assert(old(self).savepoints@[i] == self.savepoints@[i]); }
            }
            assert forall|i: int, j: int| 0 <= i < j < self.savepoints@.len() implies (#[trigger] self.savepoints@[i]).writes <= (#[trigger] self.savepoints@[j]).writes
                && self.savepoints@[i].watched <= self.savepoints@[j].watched && self.savepoints@[i].locked <= self.savepoints@[j].locked by {
                assert(old(self).savepoints@[i] == self.savepoints@[i]);
                if j < old(self).savepoints@.len() { assert(old(self).savepoints@[j] == self.savepoints@[j]); }
            }
        }
    }

    /// Undoes everything since the newest savepoint, releasing the locks taken
    /// since; fails where there is no savepoint.
    pub fn rollback_to_savepoint(&mut self, store: &mut TxnStore) -> (r: Result<(), Error>)
        requires
            old(self).wf(),
            old(store).wf(),
        ensures
            final(self).wf(),
            final(store).wf(),
            final(store).lock_timeout == old(store).lock_timeout,
            final(store).next_txn_id == old(store).next_txn_id,
            final(store).base_db == old(store).base_db,
            final(self).id == old(self).id,
            final(self).optimistic == old(self).optimistic,
            final(self).snapshot == old(self).snapshot,
            old(self).savepoints@.len() == 0 ==> r == Err::<(), Error>(Error { kind: ErrorKind::InvalidOperation })
                && *final(self) == *old(self) && *final(store) == *old(store),
            old(self).savepoints@.len() > 0 ==> r.is_ok() && {
                let sp = old(self).savepoints@.last();
                &&& final(self).write_view() == old(self).write_view().subrange(0, sp.writes as int)
                &&& final(self).watched@ == old(self).watched@.subrange(0, sp.watched as int)
                &&& final(self).savepoints@ == old(self).savepoints@.drop_last()
                &&& forall|j: int| sp.locked <= j < old(self).locked@.len() ==> !held_by(final(store).locks@, #[trigger] old(self).locked@[j].cf, old(self).locked@[j].key@, old(self).id)
                &&& locks_held(*old(self), *old(store)) ==> locks_held(*final(self), *final(store))
                    && forall|j: int| 0 <= j < sp.locked ==> held_by(final(store).locks@, #[trigger] old(self).locked@[j].cf, old(self).locked@[j].key@, old(self).id)
            },
            others_unchanged(old(store).locks@, final(store).locks@, old(self).id),
    {
        if self.savepoints.len() == 0 {
            return Err(Error::new(ErrorKind::InvalidOperation));
        }
        match self.savepoints.pop() {
            None => Err(Error::new(ErrorKind::InvalidOperation)),
            Some(sp) => {
                proof {
                    assert(old(self).savepoints@.last() == sp);
                    assert(old(self).savepoints@[old(self).savepoints@.len() - 1] == sp);
                }
                let ghost lk = self.locked@;
                store.release(self.id, &self.locked, sp.locked, false);
                proof {
                    if locks_held(*old(self), *old(store)) {
                        assert forall|j: int| 0 <= j < sp.locked implies held_by(store.locks@, #[trigger] lk[j].cf, lk[j].key@, self.id) by {
                            assert(held_by(old(store).locks@, lk[j].cf, lk[j].key@, self.id));
                            assert(!(exists|x: int| sp.locked <= x < lk.len() && #[trigger] lk[x].cf == lk[j].cf && lk[x].key@ == lk[j].key@)) by {
                                if exists|x: int| sp.locked <= x < lk.len() && #[trigger] lk[x].cf == lk[j].cf && lk[x].key@ == lk[j].key@ {
                                    let x = choose|x: int| sp.locked <= x < lk.len() && #[trigger] lk[x].cf == lk[j].cf && lk[x].key@ == lk[j].key@;
                                    assert(!(lk[j].cf == lk[x].cf && lk[j].key@ == lk[x].key@));
                                }
                            }
                        }
                    }
                }
                let ghost wv = self.write_view();
                self.writes.truncate(sp.writes);
                self.watched.truncate(sp.watched);
                self.locked.truncate(sp.locked);
                assert(self.write_view() =~= wv.subrange(0, sp.writes as int));
                proof {
                    if locks_held(*old(self), *old(store)) {
                        assert forall|j: int| 0 <= j < self.locked@.len() implies held_by(store.locks@, (#[trigger] self.locked@[j]).cf, self.locked@[j].key@, self.id) by {
                            assert(self.locked@[j] == lk[j]);
                        }
                        assert forall|a: int, b: int| 0 <= a < b < self.locked@.len() implies !(#[trigger] self.locked@[a].cf == #[trigger] self.locked@[b].cf
                            && self.locked@[a].key@ == self.locked@[b].key@) by {
                            assert(self.locked@[a] == lk[a]);
                            assert(self.locked@[b] == lk[b]);
                        }
                    }
                    assert forall|i: int| 0 <= i < self.savepoints@.len() implies (#[trigger] self.savepoints@[i]).writes <= self.writes@.len()
                        && self.savepoints@[i].watched <= self.watched@.len() && self.savepoints@[i].locked <= self.locked@.len() by {
                        let n = old(self).savepoints@.len() - 1;
                        assert(old(self).savepoints@[i] == self.savepoints@[i]);
                        assert(old(self).savepoints@[n] == sp);
                    }
                    assert forall|i: int, j: int| 0 <= i < j < self.savepoints@.len() implies (#[trigger] self.savepoints@[i]).writes <= (#[trigger] self.savepoints@[j]).writes
                        && self.savepoints@[i].watched <= self.savepoints@[j].watched && self.savepoints@[i].locked <= self.savepoints@[j].locked by {
                        assert(old(self).savepoints@[i] == self.savepoints@[i]);
                        assert(old(self).savepoints@[j] == self.savepoints@[j]);
                    }
                }
                Ok(())
            },
        }
    }
}

impl Transaction {
    /// Whether a watched key has been written since it was observed.
    fn find_conflict(&self, store: &TxnStore) -> (r: bool)
        ensures
            r == conflicted(self.watched@, store.base_db.storage.log_view()),
    {
        let ghost log = store.base_db.storage.log_view();
        let mut i: usize = 0;
        while i < self.watched.len()
            invariant
                i <= self.watched@.len(),
                log == store.base_db.storage.log_view(),
                forall|j: int| 0 <= j < i ==> key_seq(log, #[trigger] self.watched@[j].cf, self.watched@[j].key@) <= self.watched@[j].seq,
            decreases self.watched@.len() - i,
        {
            let w = &self.watched[i];
            if store.base_db.storage.latest_seq_of(w.cf, w.key.as_slice()) > w.seq {
                return true;
            }
            i = i + 1;
        }
        false
    }

    /// Empties the transaction so that the handle can be used again.
    fn reset(&mut self)
        ensures
            final(self).wf(),
            final(self).writes@.len() == 0,
            final(self).watched@.len() == 0,
            final(self).locked@.len() == 0,
            final(self).savepoints@.len() == 0,
            final(self).id == old(self).id,
            final(self).optimistic == old(self).optimistic,
            final(self).snapshot == old(self).snapshot,
    {
        self.writes = Vec::new();
        self.watched = Vec::new();
        self.locked = Vec::new();
        self.savepoints = Vec::new();
    }

    /// Discards the transaction's writes and releases its locks; the database
    /// is untouched.
    pub fn rollback(&mut self, store: &mut TxnStore) -> (r: Result<(), Error>)
        requires
            old(store).wf(),
        ensures
            r.is_ok(),
            final(self).wf(),
            final(store).wf(),
            final(store).lock_timeout == old(store).lock_timeout,
            final(store).next_txn_id == old(store).next_txn_id,
            final(store).base_db == old(store).base_db,
            final(self).writes@.len() == 0,
            final(self).locked@.len() == 0,
            final(self).savepoints@.len() == 0,
            final(self).id == old(self).id,
            final(self).optimistic == old(self).optimistic,
            final(self).snapshot == old(self).snapshot,
            forall|c: u32, k: Seq<u8>| !(#[trigger] held_by(final(store).locks@, c, k, old(self).id)),
            others_unchanged(old(store).locks@, final(store).locks@, old(self).id),
    {
        store.release(self.id, &self.locked, 0, true);
        self.reset();
        Ok(())
    }

    /// Commits the transaction's writes atomically, at one new sequence number.
    ///
    /// An optimistic transaction with writes first validates the keys it read
    /// or wrote, in the same step: where one was written since it was
    /// observed, nothing is applied and the commit fails with `Conflict`. One
    /// without writes has nothing to apply and commits as it is. Whatever the outcome the
    /// transaction's locks are released and the handle starts anew.
    pub fn commit(&mut self, store: &mut TxnStore) -> (r: Result<(), Error>)
        requires
            old(store).wf(),
        ensures
            final(self).wf(),
            final(store).wf(),
            final(store).lock_timeout == old(store).lock_timeout,
            final(store).next_txn_id == old(store).next_txn_id,
            old(self).optimistic && old(self).writes@.len() > 0 && conflicted(old(self).watched@, old(store).base_db.storage.log_view()) ==> r
                == Err::<(), Error>(Error { kind: ErrorKind::Conflict }) && final(store).base_db == old(store).base_db,
            !(old(self).optimistic && old(self).writes@.len() > 0 && conflicted(old(self).watched@, old(store).base_db.storage.log_view())) ==> {
                if old(self).writes@.len() == 0 {
                    r.is_ok() && final(store).base_db == old(store).base_db
                } else {
                    match old(store).base_db.write_failure(old(self).write_view()) {
                        Some(k) => r == Err::<(), Error>(Error { kind: k }) && final(store).base_db == old(store).base_db,
                        None => r.is_ok() && final(store).base_db.written(
                            old(store).base_db,
                            old(self).write_view(),
                            final(store).base_db.storage.last_seq,
                        ),
                    }
                }
            },
            final(self).writes@.len() == 0,
            final(self).watched@.len() == 0,
            final(self).locked@.len() == 0,
            final(self).savepoints@.len() == 0,
            final(self).id == old(self).id,
            final(self).optimistic == old(self).optimistic,
            final(self).snapshot == old(self).snapshot,
            forall|c: u32, k: Seq<u8>| !(#[trigger] held_by(final(store).locks@, c, k, old(self).id)),
            others_unchanged(old(store).locks@, final(store).locks@, old(self).id),
    {
        if self.optimistic && self.writes.len() > 0 && self.find_conflict(store) {
            store.release(self.id, &self.locked, 0, true);
            self.reset();
            return Err(Error::new(ErrorKind::Conflict));
        }
        if self.writes.len() == 0 {
            store.release(self.id, &self.locked, 0, true);
            self.reset();
            return Ok(());
        }
        let mut batch = WriteBatch::new();
        std::mem::swap(&mut batch.ops, &mut self.writes);
        let written = store.base_db.write(batch);
        store.release(self.id, &self.locked, 0, true);
        self.reset();
        match written {
            Ok(_) => Ok(()),
            Err(e) => Err(e),
        }
    }
}

/// What beginning a transaction does: it succeeds unless transaction or
/// snapshot ids are exhausted, leaves the data and the lock table alone, and
/// hands out a new, empty transaction of the requested kind, with a fresh id,
/// pinning a snapshot of the latest sequence number when asked to.
pub open spec fn began(old: TxnStore, new: TxnStore, optimistic: bool, set_snapshot: bool, r: Result<Transaction, Error>) -> bool {
    &&& new.wf()
    &&& new.locks == old.locks
    &&& new.lock_timeout == old.lock_timeout
    &&& new.base_db.storage == old.base_db.storage
    &&& new.base_db.merges == old.base_db.merges
    &&& new.base_db.access == old.base_db.access
    &&& new.base_db.path == old.base_db.path
    &&& (old.next_txn_id == u64::MAX || (set_snapshot && old.base_db.next_snapshot_id == u64::MAX) ==> r.is_err() && new == old)
    &&& (old.next_txn_id < u64::MAX && !(set_snapshot && old.base_db.next_snapshot_id == u64::MAX) ==> r.is_ok())
    &&& r.is_ok() ==> {
        let t = r.unwrap();
        &&& t.wf()
        &&& t.id == old.next_txn_id
        &&& new.next_txn_id == old.next_txn_id + 1
        &&& t.optimistic == optimistic
        &&& t.writes@.len() == 0
        &&& t.watched@.len() == 0
        &&& t.locked@.len() == 0
        &&& locks_held(t, new)
        &&& t.savepoints@.len() == 0
        &&& set_snapshot ==> t.snapshot.is_some() && t.snapshot.unwrap().seq == old.base_db.storage.last_seq
            && new.base_db.is_live(t.snapshot.unwrap())
            && new.base_db.snapshots@ == old.base_db.snapshots@.push(t.snapshot.unwrap())
        &&& !set_snapshot ==> t.snapshot.is_none() && new.base_db == old.base_db
    }
}

impl TxnStore {
    /// Begins a transaction, pinning a snapshot if asked to.
    pub fn begin(&mut self, optimistic: bool, set_snapshot: bool) -> (r: Result<Transaction, Error>)
        requires
            old(self).wf(),
        ensures
            began(*old(self), *final(self), optimistic, set_snapshot, r),
    {
        if self.next_txn_id == u64::MAX {
            return Err(Error::new(ErrorKind::OutOfRange));
        }
        let snapshot = if set_snapshot {
            match self.base_db.create_snapshot() {
                Ok(s) => Some(s),
                Err(e) => {
                    return Err(e);
                },
            }
        } else {
            None
        };
        let id = self.next_txn_id;
        self.next_txn_id = id + 1;
        Ok(Transaction {
            id,
            optimistic,
            writes: Vec::new(),
            watched: Vec::new(),
            locked: Vec::new(),
            savepoints: Vec::new(),
            snapshot,
        })
    }
}

} // verus!
