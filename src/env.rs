//! The medium that databases are persisted on, keyed by path.
use vstd::prelude::*;
use crate::error::{Error, ErrorKind};
use crate::storage::Storage;

verus! {

/// A database as it rests on the medium, under its path.
pub struct StoredDb {
    pub path: String,
    pub storage: Storage,
    /// A read-write handle holds the database open.
    pub locked: bool,
}

/// The medium that databases are persisted on: one stored database per path.
pub struct Env {
    pub dbs: Vec<StoredDb>,
}

impl Env {
    pub open spec fn wf(&self) -> bool {
        &&& forall|i: int, j: int|
            0 <= i < j < self.dbs@.len() ==> #[trigger] self.dbs@[i].path@ != #[trigger] self.dbs@[j].path@
        &&& forall|i: int| 0 <= i < self.dbs@.len() ==> (#[trigger] self.dbs@[i]).storage.wf()
    }

    /// The position of the database stored under `path`, if there is one.
    pub open spec fn index_of(&self, path: Seq<char>) -> Option<int> {
        if exists|i: int| 0 <= i < self.dbs@.len() && #[trigger] self.dbs@[i].path@ == path {
            Some(choose|i: int| 0 <= i < self.dbs@.len() && #[trigger] self.dbs@[i].path@ == path)
        } else {
            None
        }
    }

    /// An empty medium.
    pub fn new() -> (r: Env)
        ensures
            r.wf(),
            r.dbs@.len() == 0,
    {
        Env { dbs: Vec::new() }
    }

    /// Finds the database stored under `path`.
    pub fn find(&self, path: &str) -> (r: Option<usize>)
        requires
            self.wf(),
        ensures
            r == match self.index_of(path@) {
                Some(i) => Some(i as usize),
                None => None::<usize>,
            },
            r.is_some() ==> r.unwrap() < self.dbs@.len() && self.dbs@[r.unwrap() as int].path@ == path@,
    {
        let wanted = String::from_str(path);
        let mut i: usize = 0;
        while i < self.dbs.len()
            invariant
                i <= self.dbs@.len(),
                self.wf(),
                wanted@ == path@,
                forall|j: int| 0 <= j < i ==> self.dbs@[j].path@ != path@,
            decreases self.dbs@.len() - i,
        {
            if self.dbs[i].path == wanted {
                proof {
                    let k = choose|k: int| 0 <= k < self.dbs@.len() && #[trigger] self.dbs@[k].path@ == path@;
                    if k != i {
                        if k < i {
                            assert(self.dbs@[k].path@ != self.dbs@[i as int].path@);
                        } else {
                            assert(self.dbs@[i as int].path@ != self.dbs@[k].path@);
                        }
                    }
                }
                return Some(i);
            }
            i = i + 1;
        }
        None
    }

    /// Stores `storage` under `path`, replacing what was there; sets the lock flag.
    pub fn store(&mut self, path: &str, storage: Storage, locked: bool)
        requires
            old(self).wf(),
            storage.wf(),
        ensures
            final(self).wf(),
            final(self).index_of(path@).is_some(),
            final(self).dbs@[final(self).index_of(path@).unwrap()].storage == storage,
            final(self).dbs@[final(self).index_of(path@).unwrap()].locked == locked,
            forall|p: Seq<char>| p != path@ ==> (#[trigger] final(self).index_of(p)).is_some() == old(self).index_of(p).is_some(),
            forall|p: Seq<char>| p != path@ && old(self).index_of(p).is_some() ==> final(self).dbs@[#[trigger] final(self).index_of(p).unwrap()] == old(self).dbs@[old(self).index_of(p).unwrap()],
    {
        match self.find(path) {
            Some(i) => {
                let ghost before = self.dbs@;
                let entry = StoredDb { path: String::from_str(path), storage, locked };
                self.dbs.set(i, entry);
                proof {
                    assert(self.dbs@[i as int].path@ == path@);
                    assert forall|a: int, b: int| 0 <= a < b < self.dbs@.len() implies #[trigger] self.dbs@[a].path@ != #[trigger] self.dbs@[b].path@ by {
                        assert(before[a].path@ != before[b].path@);
                    }
                    self.lemma_index_of(path@, i as int);
                    assert forall|p: Seq<char>| p != path@ implies (#[trigger] self.index_of(p)).is_some() == old(self).index_of(p).is_some() by {
                        if old(self).index_of(p).is_some() {
                            let k = old(self).index_of(p).unwrap();
                            assert(self.dbs@[k].path@ == p);
                        }
                        if self.index_of(p).is_some() {
                            let k = self.index_of(p).unwrap();
                            assert(before[k].path@ == p);
                        }
                    }
                    assert forall|p: Seq<char>| p != path@ && old(self).index_of(p).is_some() implies self.dbs@[#[trigger] self.index_of(p).unwrap()] == old(self).dbs@[old(self).index_of(p).unwrap()] by {
                        let k = old(self).index_of(p).unwrap();
                        assert(self.dbs@[k].path@ == p);
                        self.lemma_index_of(p, k);
                    }
                }
            },
            None => {
                let ghost before = self.dbs@;
                let entry = StoredDb { path: String::from_str(path), storage, locked };
                self.dbs.push(entry);
                proof {
                    let n = before.len() as int;
                    assert forall|a: int, b: int| 0 <= a < b < self.dbs@.len() implies #[trigger] self.dbs@[a].path@ != #[trigger] self.dbs@[b].path@ by {
                        if b == n {
                            assert(before[a].path@ != path@);
                        } else {
                            assert(before[a].path@ != before[b].path@);
                        }
                    }
                    assert(self.dbs@[n].path@ == path@);
                    self.lemma_index_of(path@, n);
                    assert forall|p: Seq<char>| p != path@ implies (#[trigger] self.index_of(p)).is_some() == old(self).index_of(p).is_some() by {
                        if old(self).index_of(p).is_some() {
                            let k = old(self).index_of(p).unwrap();
                            assert(self.dbs@[k].path@ == p);
                        }
                        if self.index_of(p).is_some() {
                            let k = self.index_of(p).unwrap();
                            assert(k != n);
                            assert(before[k].path@ == p);
                        }
                    }
                    assert forall|p: Seq<char>| p != path@ && old(self).index_of(p).is_some() implies self.dbs@[#[trigger] self.index_of(p).unwrap()] == old(self).dbs@[old(self).index_of(p).unwrap()] by {
                        let k = old(self).index_of(p).unwrap();
                        assert(self.dbs@[k].path@ == p);
                        self.lemma_index_of(p, k);
                    }
                }
            },
        }
    }

    /// Removes the database stored under `path`.
    pub fn remove(&mut self, path: &str) -> (r: Result<(), Error>)
        requires
            old(self).wf(),
        ensures
            final(self).wf(),
            old(self).index_of(path@).is_none() ==> r == Err::<(), Error>(Error { kind: ErrorKind::NotFound }) && *final(self) == *old(self),
            old(self).index_of(path@).is_some() && old(self).dbs@[old(self).index_of(path@).unwrap()].locked ==> r == Err::<(), Error>(Error { kind: ErrorKind::Busy }) && *final(self) == *old(self),
            old(self).index_of(path@).is_some() && !old(self).dbs@[old(self).index_of(path@).unwrap()].locked ==> r.is_ok() && final(self).index_of(path@).is_none(),
            forall|p: Seq<char>| p != path@ ==> (#[trigger] final(self).index_of(p)).is_some() == old(self).index_of(p).is_some(),
    {
        match self.find(path) {
            None => Err(Error::new(ErrorKind::NotFound)),
            Some(i) => {
                if self.dbs[i].locked {
                    return Err(Error::new(ErrorKind::Busy));
                }
                let ghost before = self.dbs@;
                self.dbs.remove(i);
                proof {
                    let after = self.dbs@;
                    assert(after =~= before.remove(i as int));
                    assert forall|a: int, b: int| 0 <= a < b < after.len() implies #[trigger] after[a].path@ != #[trigger] after[b].path@ by {
                        let oa = if a < i { a } else { a + 1 };
                        let ob = if b < i { b } else { b + 1 };
                        assert(after[a] == before[oa]);
                        assert(after[b] == before[ob]);
                    }
                    assert forall|a: int| 0 <= a < after.len() implies (#[trigger] after[a]).storage.wf() by {
                        let oa = if a < i { a } else { a + 1 };
                        assert(after[a] == before[oa]);
                    }
                    if self.index_of(path@).is_some() {
                        let k = self.index_of(path@).unwrap();
                        let ok = if k < i { k } else { k + 1 };
                        assert(after[k] == before[ok]);
                        assert(before[ok].path@ != before[i as int].path@);
                    }
                    assert forall|p: Seq<char>| p != path@ implies (#[trigger] self.index_of(p)).is_some() == old(self).index_of(p).is_some() by {
                        if old(self).index_of(p).is_some() {
                            let k = old(self).index_of(p).unwrap();
                            assert(k != i);
                            let nk = if k < i { k } else { k - 1 };
                            assert(after[nk] == before[k]);
                        }
                        if self.index_of(p).is_some() {
                            let k = self.index_of(p).unwrap();
                            let ok = if k < i { k } else { k + 1 };
                            assert(after[k] == before[ok]);
                        }
                    }
                }
                Ok(())
            },
        }
    }

    pub proof fn lemma_index_of(&self, p: Seq<char>, k: int)
        requires
            self.wf(),
            0 <= k < self.dbs@.len(),
            self.dbs@[k].path@ == p,
        ensures
            self.index_of(p) == Some(k),
    {
        let j = self.index_of(p).unwrap();
        if j != k {
            if j < k {
                assert(self.dbs@[j].path@ != self.dbs@[k].path@);
            } else {
                assert(self.dbs@[k].path@ != self.dbs@[j].path@);
            }
        }
    }
}

} // verus!
