//! The stored state of one database: column-family catalog, log, table
//! files, atomic batch writes, flush and compaction.
use vstd::prelude::*;
use crate::bytes::{lemma_lex_lt_transitive, lex_less, lex_lt, to_vec};
use crate::error::{Error, ErrorKind};
use crate::merge::{MergeOperator, MergeTable};
use crate::version::{
    collapsed, compact_log, copy_record, lemma_not_absent_visible, lemma_view_log_push, lookup, seq_sorted, seqs_bounded, value_at,
    view_log, visible, Lookup, Op, OpView, Record, RecordView, ValueState,
};

verus! {

/// The name of the column family that every database has.
pub open spec fn default_cf_name() -> Seq<char> {
    seq!['d', 'e', 'f', 'a', 'u', 'l', 't']
}

/// An entry of the column-family catalog.
pub struct FamilyEntry {
    pub name: String,
    pub id: u32,
}

/// An immutable sorted table: the records `log[start..end]`.
#[derive(Clone, Copy)]
pub struct TableFile {
    pub number: u64,
    pub level: i32,
    pub start: usize,
    pub end: usize,
}

/// One operation of a write batch.
pub struct BatchOp {
    pub cf: u32,
    pub key: Vec<u8>,
    pub op: Op,
}

pub struct BatchOpView {
    pub cf: u32,
    pub key: Seq<u8>,
    pub op: OpView,
}

impl View for BatchOp {
    type V = BatchOpView;

    open spec fn view(&self) -> BatchOpView {
        BatchOpView { cf: self.cf, key: self.key@, op: self.op@ }
    }
}

/// The operations of a batch, as values.
pub open spec fn batch_view(batch: Seq<BatchOp>) -> Seq<BatchOpView> {
    batch.map_values(|b: BatchOp| b@)
}

/// The records that a batch becomes when it is committed at sequence number `seq`.
pub open spec fn batch_records(batch: Seq<BatchOpView>, seq: u64) -> Seq<RecordView> {
    batch.map_values(|b: BatchOpView| RecordView { cf: b.cf, key: b.key, seq, op: b.op })
}

/// The persisted state of one database: its column-family catalog, the
/// versioned records in commit order, and the sorted tables that hold the
/// records flushed so far (the rest form the memtable).
pub struct Storage {
    pub families: Vec<FamilyEntry>,
    pub next_cf_id: u32,
    pub log: Vec<Record>,
    pub last_seq: u64,
    pub flushed: usize,
    pub files: Vec<TableFile>,
    pub next_file_number: u64,
    /// History up to this sequence number has been collapsed by compaction.
    pub compacted_through: u64,
}

/// The contents of a sequence of strings.
pub open spec fn string_views(v: Seq<String>) -> Seq<Seq<char>> {
    v.map_values(|n: String| n@)
}

/// The sequence number of the newest record of `(cf, key)`, or 0 if there is none.
pub open spec fn key_seq(l: Seq<RecordView>, cf: u32, key: Seq<u8>) -> u64
    decreases l.len(),
{
    if l.len() == 0 {
        0
    } else if l.last().cf == cf && l.last().key == key {
        l.last().seq
    } else {
        key_seq(l.drop_last(), cf, key)
    }
}

/// The number of tombstones among the records.
pub open spec fn count_deletions(l: Seq<RecordView>) -> nat
    decreases l.len(),
{
    if l.len() == 0 {
        0
    } else {
        count_deletions(l.drop_last()) + if l.last().op == OpView::Delete { 1nat } else { 0nat }
    }
}

/// The bytes that a record occupies: its key and its value or operand.
pub open spec fn record_size(r: RecordView) -> nat {
    r.key.len() + match r.op {
        OpView::Put(v) => v.len(),
        OpView::Delete => 0,
        OpView::Merge(v) => v.len(),
    }
}

/// The bytes that the records occupy.
pub open spec fn data_size(l: Seq<RecordView>) -> nat
    decreases l.len(),
{
    if l.len() == 0 {
        0
    } else {
        data_size(l.drop_last()) + record_size(l.last())
    }
}

/// `k` is the smallest key of the records.
pub open spec fn is_smallest_key(l: Seq<RecordView>, k: Seq<u8>) -> bool {
    &&& exists|i: int| 0 <= i < l.len() && #[trigger] l[i].key == k
    &&& forall|i: int| 0 <= i < l.len() ==> !lex_lt(#[trigger] l[i].key, k)
}

/// `k` is the largest key of the records.
pub open spec fn is_largest_key(l: Seq<RecordView>, k: Seq<u8>) -> bool {
    &&& exists|i: int| 0 <= i < l.len() && #[trigger] l[i].key == k
    &&& forall|i: int| 0 <= i < l.len() ==> !lex_lt(k, #[trigger] l[i].key)
}

/// The metadata that describes a sorted table file.
pub struct LiveFile {
    /// Number of the file
    pub number: u64,
    /// Bytes of keys and values in the file (saturating at `usize::MAX`)
    pub size: usize,
    /// Level at which this file resides
    pub level: i32,
    /// Smallest key in the file
    pub start_key: Option<Vec<u8>>,
    /// Largest key in the file
    pub end_key: Option<Vec<u8>>,
    /// Number of entries in the file
    pub num_entries: u64,
    /// Number of deletions (tombstones) in the file
    pub num_deletions: u64,
}

/// `f` describes the records `l` of a table with the given number and level.
pub open spec fn describes(f: LiveFile, t: TableFile, l: Seq<RecordView>) -> bool {
    &&& f.number == t.number
    &&& f.level == t.level
    &&& f.num_entries == l.len()
    &&& f.num_deletions == count_deletions(l)
    &&& f.size == if data_size(l) <= usize::MAX { data_size(l) } else { usize::MAX as nat }
    &&& f.start_key.is_some() && is_smallest_key(l, f.start_key.unwrap()@)
    &&& f.end_key.is_some() && is_largest_key(l, f.end_key.unwrap()@)
}

/// The writes committed at one sequence number.
#[derive(Debug)]
pub struct UpdateBatch {
    pub seq: u64,
    pub records: Vec<Record>,
}

/// The records of the batches, one batch after the other.
pub open spec fn flatten(bs: Seq<UpdateBatch>) -> Seq<RecordView>
    decreases bs.len(),
{
    if bs.len() == 0 {
        Seq::empty()
    } else {
        flatten(bs.drop_last()) + view_log(bs.last().records@)
    }
}

/// Batches are not empty, hold only records of their own sequence number, and
/// come in strictly increasing order of it.
pub open spec fn batches_wf(bs: Seq<UpdateBatch>) -> bool {
    &&& forall|b: int| 0 <= b < bs.len() ==> (#[trigger] bs[b]).records@.len() > 0
        && forall|k: int| 0 <= k < bs[b].records@.len() ==> (#[trigger] bs[b].records@[k]).seq == bs[b].seq
    &&& forall|a: int, b: int| 0 <= a < b < bs.len() ==> (#[trigger] bs[a]).seq < (#[trigger] bs[b]).seq
}

/// The outcome of a read, as the caller sees it.
pub open spec fn read_result(s: ValueState, r: Result<Option<Vec<u8>>, Error>) -> bool {
    match s {
        ValueState::Absent => r == Ok::<Option<Vec<u8>>, Error>(None),
        ValueState::Present(v) => r.is_ok() && r.unwrap().is_some() && r.unwrap().unwrap()@ == v,
        ValueState::Unmergeable => r == Err::<Option<Vec<u8>>, Error>(Error { kind: ErrorKind::Corruption }),
    }
}

/// Turns the state of a key into what a read returns.
pub fn to_read_result(l: Lookup) -> (r: Result<Option<Vec<u8>>, Error>)
    ensures
        read_result(l@, r),
{
    match l {
        Lookup::Found(v) => Ok(Some(v)),
        Lookup::Absent => Ok(None),
        Lookup::Unmergeable => Err(Error::new(ErrorKind::Corruption)),
    }
}

impl Storage {
    pub open spec fn names(&self) -> Seq<Seq<char>> {
        self.families@.map_values(|f: FamilyEntry| f@)
    }

    pub open spec fn has_name(&self, name: Seq<char>) -> bool {
        exists|i: int| 0 <= i < self.families@.len() && #[trigger] self.families@[i].name@ == name
    }

    pub open spec fn has_cf(&self, id: u32) -> bool {
        exists|i: int| 0 <= i < self.families@.len() && #[trigger] self.families@[i].id == id
    }

    pub open spec fn families_wf(&self) -> bool {
        &&& self.families@.len() >= 1
        &&& self.families@[0].name@ == default_cf_name()
        &&& self.families@[0].id == 0
        &&& forall|i: int, j: int|
            0 <= i < j < self.families@.len() ==> #[trigger] self.families@[i].name@
                != #[trigger] self.families@[j].name@
        &&& forall|i: int|
            0 <= i < self.families@.len() ==> #[trigger] self.families@[i].id < self.next_cf_id
        &&& forall|i: int, j: int|
            0 <= i < j < self.families@.len() ==> #[trigger] self.families@[i].id
                != #[trigger] self.families@[j].id
    }

    pub open spec fn files_wf(&self) -> bool {
        &&& self.flushed <= self.log@.len()
        &&& self.files@.len() == 0 ==> self.flushed == 0
        &&& self.files@.len() > 0 ==> {
            &&& self.files@[0].start == 0
            &&& self.files@.last().end == self.flushed
        }
        &&& forall|k: int|
            0 <= k < self.files@.len() ==> #[trigger] self.files@[k].start < self.files@[k].end
        &&& forall|k: int|
            0 <= k < self.files@.len() - 1 ==> #[trigger] self.files@[k].end == self.files@[k
                + 1].start
        &&& forall|k: int|
            0 <= k < self.files@.len() ==> (#[trigger] self.files@[k]).level >= 0
                && self.files@[k].number < self.next_file_number
        &&& forall|a: int, b: int|
            0 <= a < b < self.files@.len() ==> (#[trigger] self.files@[a]).number < (#[trigger] self.files@[b]).number
    }

    /// The invariant of the stored state.
    pub open spec fn wf(&self) -> bool {
        &&& seq_sorted(self.log_view())
        &&& seqs_bounded(self.log_view(), self.last_seq)
        &&& self.compacted_through <= self.last_seq
        &&& self.families_wf()
        &&& self.files_wf()
    }

    pub open spec fn log_view(&self) -> Seq<RecordView> {
        view_log(self.log@)
    }

    /// The value of a key as of `horizon`.
    pub open spec fn value(&self, cf: u32, key: Seq<u8>, horizon: u64, mo: Option<MergeOperator>) -> ValueState {
        value_at(self.log_view(), cf, key, horizon, mo)
    }

    /// A fresh database: the default column family and no records.
    pub fn new() -> (r: Storage)
        ensures
            r.wf(),
            r.names() == seq![default_cf_name()],
            r.log@.len() == 0,
            r.last_seq == 0,
            r.next_cf_id == 1,
    {
        let mut families: Vec<FamilyEntry> = Vec::new();
        families.push(FamilyEntry { name: default_name(), id: 0 });
        let r = Storage {
            families,
            next_cf_id: 1,
            log: Vec::new(),
            last_seq: 0,
            flushed: 0,
            files: Vec::new(),
            next_file_number: 1,
            compacted_through: 0,
        };
        assert(r.names() =~= seq![default_cf_name()]);
        r
    }

    pub proof fn lemma_has_name(&self, n: Seq<char>)
        ensures
            self.has_name(n) <==> self.names().contains(n),
    {
        if self.has_name(n) {
            let k = choose|k: int| 0 <= k < self.families@.len() && #[trigger] self.families@[k].name@ == n;
            assert(self.names()[k] == n);
        }
        if self.names().contains(n) {
            let k = choose|k: int| 0 <= k < self.names().len() && self.names()[k] == n;
            assert(self.families@[k].name@ == n);
        }
    }

    /// Two stores with the same contents.
    pub open spec fn same(&self, o: Storage) -> bool {
        &&& self.families@ == o.families@
        &&& self.next_cf_id == o.next_cf_id
        &&& self.log_view() == o.log_view()
        &&& self.last_seq == o.last_seq
        &&& self.flushed == o.flushed
        &&& self.files@ == o.files@
        &&& self.next_file_number == o.next_file_number
        &&& self.compacted_through == o.compacted_through
    }

    /// Copies the store.
    pub fn duplicate(&self) -> (r: Storage)
        ensures
            r.same(*self),
            self.wf() ==> r.wf(),
    {
        let mut families: Vec<FamilyEntry> = Vec::new();
        let mut i: usize = 0;
        while i < self.families.len()
            invariant
                i <= self.families@.len(),
                families@ == self.families@.subrange(0, i as int),
            decreases self.families@.len() - i,
        {
            families.push(FamilyEntry { name: self.families[i].name.clone(), id: self.families[i].id });
            assert(families@ =~= self.families@.subrange(0, i + 1));
            i = i + 1;
        }
        let mut log: Vec<Record> = Vec::new();
        let mut j: usize = 0;
        while j < self.log.len()
            invariant
                j <= self.log@.len(),
                view_log(log@) == self.log_view().subrange(0, j as int),
            decreases self.log@.len() - j,
        {
            let rec = copy_record(&self.log[j]);
            proof { lemma_view_log_push(log@, rec); }
            log.push(rec);
            assert(view_log(log@) =~= self.log_view().subrange(0, j + 1));
            j = j + 1;
        }
        let mut files: Vec<TableFile> = Vec::new();
        let mut k: usize = 0;
        while k < self.files.len()
            invariant
                k <= self.files@.len(),
                files@ == self.files@.subrange(0, k as int),
            decreases self.files@.len() - k,
        {
            files.push(self.files[k]);
            assert(files@ =~= self.files@.subrange(0, k + 1));
            k = k + 1;
        }
        assert(families@ =~= self.families@);
        assert(view_log(log@) =~= self.log_view());
        assert(files@ =~= self.files@);
        let r = Storage {
            families,
            next_cf_id: self.next_cf_id,
            log,
            last_seq: self.last_seq,
            flushed: self.flushed,
            files,
            next_file_number: self.next_file_number,
            compacted_through: self.compacted_through,
        };
        proof {
            assert(r.names() =~= self.names());
        }
        r
    }

    /// Looks up a column family by name.
    pub fn find_family(&self, name: &str) -> (r: Option<usize>)
        ensures
            match r {
                Some(i) => i < self.families@.len() && self.families@[i as int].name@ == name@,
                None => !self.has_name(name@),
            },
    {
        let wanted = String::from_str(name);
        let mut i: usize = 0;
        while i < self.families.len()
            invariant
                i <= self.families@.len(),
                wanted@ == name@,
                forall|j: int| 0 <= j < i ==> self.families@[j].name@ != name@,
            decreases self.families@.len() - i,
        {
            if self.families[i].name == wanted {
                return Some(i);
            }
            i = i + 1;
        }
        None
    }

    /// Whether a column family with this id is in the catalog.
    pub fn contains_cf(&self, id: u32) -> (r: bool)
        ensures
            r == self.has_cf(id),
    {
        let mut i: usize = 0;
        while i < self.families.len()
            invariant
                i <= self.families@.len(),
                forall|j: int| 0 <= j < i ==> self.families@[j].id != id,
            decreases self.families@.len() - i,
        {
            if self.families[i].id == id {
                return true;
            }
            i = i + 1;
        }
        false
    }

    /// The names of the column families, in the order of creation.
    pub fn family_names(&self) -> (r: Vec<String>)
        ensures
            string_views(r@) == self.names(),
    {
        let mut r: Vec<String> = Vec::new();
        let mut i: usize = 0;
        while i < self.families.len()
            invariant
                i <= self.families@.len(),
                string_views(r@) == self.names().subrange(0, i as int),
            decreases self.families@.len() - i,
        {
            let ghost before = r@;
            r.push(self.families[i].name.clone());
            assert(r@ =~= before.push(self.families@[i as int].name));
            assert(string_views(r@) =~= string_views(before).push(self.families@[i as int].name@));
            assert(string_views(r@) =~= self.names().subrange(0, i + 1));
            i = i + 1;
        }
        assert(self.names().subrange(0, i as int) =~= self.names());
        r
    }

    /// Narrows the catalog to the families named in `names`; the default
    /// family stays.
    pub fn keep_families(&mut self, names: &Vec<String>)
        requires
            old(self).wf(),
            string_views(names@).contains(default_cf_name()),
        ensures
            final(self).wf(),
            final(self).log == old(self).log,
            final(self).last_seq == old(self).last_seq,
            final(self).next_cf_id == old(self).next_cf_id,
            final(self).flushed == old(self).flushed,
            final(self).files == old(self).files,
            final(self).next_file_number == old(self).next_file_number,
            final(self).compacted_through == old(self).compacted_through,
            forall|n: Seq<char>| #[trigger] final(self).has_name(n) <==> (old(self).has_name(n) && string_views(names@).contains(n)),
    {
        let ghost fams = self.families@;
        let ghost nv = string_views(names@);
        let mut kept: Vec<FamilyEntry> = Vec::new();
        let mut i: usize = 0;
        while i < self.families.len()
            invariant
                *self == *old(self),
                self.wf(),
                fams == self.families@,
                nv == string_views(names@),
                nv.contains(default_cf_name()),
                i <= fams.len(),
                i > 0 ==> kept@.len() > 0 && kept@[0] == fams[0],
                forall|a: int| 0 <= a < kept@.len() ==> (#[trigger] kept@[a]).id < self.next_cf_id && nv.contains(kept@[a].name@),
                forall|a: int, j: int| 0 <= a < kept@.len() && i <= j < fams.len() ==> (#[trigger] kept@[a]).name@ != (#[trigger] fams[j]).name@
                    && kept@[a].id != fams[j].id,
                forall|a: int, b: int| 0 <= a < b < kept@.len() ==> #[trigger] kept@[a].name@ != #[trigger] kept@[b].name@ && kept@[a].id != kept@[b].id,
                forall|n: Seq<char>| (exists|a: int| 0 <= a < kept@.len() && #[trigger] kept@[a].name@ == n)
                    <==> (exists|j: int| 0 <= j < i && #[trigger] fams[j].name@ == n) && nv.contains(n),
            decreases fams.len() - i,
        {
            let ghost k0 = kept@;
            let keep = crate::open_util::contains_name(names, &self.families[i].name);
            if keep {
                kept.push(FamilyEntry { name: self.families[i].name.clone(), id: self.families[i].id });
            }
            proof {
                let f = fams[i as int];
                if i == 0 {
                    assert(f.name@ == default_cf_name());
                }
                assert forall|a: int, j: int| 0 <= a < kept@.len() && i + 1 <= j < fams.len() implies (#[trigger] kept@[a]).name@ != (#[trigger] fams[j]).name@
                    && kept@[a].id != fams[j].id by {
                    if a < k0.len() {
                        assert(kept@[a] == k0[a]);
                    } else {
                        assert(fams[i as int].name@ != fams[j].name@);
                        assert(fams[i as int].id != fams[j].id);
                    }
                }
                assert forall|a: int, b: int| 0 <= a < b < kept@.len() implies #[trigger] kept@[a].name@ != #[trigger] kept@[b].name@ && kept@[a].id != kept@[b].id by {
                    assert(kept@[a] == k0[a]);
                    if b < k0.len() { assert(kept@[b] == k0[b]); }
                }
                assert forall|a: int| 0 <= a < kept@.len() implies (#[trigger] kept@[a]).id < self.next_cf_id && nv.contains(kept@[a].name@) by {
                    if a < k0.len() { assert(kept@[a] == k0[a]); }
                }
                assert forall|n: Seq<char>| (exists|a: int| 0 <= a < kept@.len() && #[trigger] kept@[a].name@ == n)
                    <==> (exists|j: int| 0 <= j < i + 1 && #[trigger] fams[j].name@ == n) && nv.contains(n) by {
                    if exists|a: int| 0 <= a < kept@.len() && #[trigger] kept@[a].name@ == n {
                        let a = choose|a: int| 0 <= a < kept@.len() && #[trigger] kept@[a].name@ == n;
                        if a < k0.len() {
                            assert(kept@[a] == k0[a]);
                            assert(exists|a2: int| 0 <= a2 < k0.len() && #[trigger] k0[a2].name@ == n);
                            let j = choose|j: int| 0 <= j < i && #[trigger] fams[j].name@ == n;
                            assert(fams[j].name@ == n);
                        } else {
                            assert(fams[i as int].name@ == n);
                        }
                    }
                    if (exists|j: int| 0 <= j < i + 1 && #[trigger] fams[j].name@ == n) && nv.contains(n) {
                        let j = choose|j: int| 0 <= j < i + 1 && #[trigger] fams[j].name@ == n;
                        if j < i {
                            assert(exists|j2: int| 0 <= j2 < i && #[trigger] fams[j2].name@ == n);
                            let a = choose|a: int| 0 <= a < k0.len() && #[trigger] k0[a].name@ == n;
                            assert(kept@[a] == k0[a]);
                        } else {
                            assert(kept@[kept@.len() - 1].name@ == n);
                        }
                    }
                }
            }
            i = i + 1;
        }
        self.families = kept;
        proof {
            assert forall|n: Seq<char>| #[trigger] self.has_name(n) <==> (old(self).has_name(n) && nv.contains(n)) by {
                if self.has_name(n) {
                    let a = choose|a: int| 0 <= a < self.families@.len() && #[trigger] self.families@[a].name@ == n;
                    assert(exists|a2: int| 0 <= a2 < self.families@.len() && #[trigger] self.families@[a2].name@ == n);
                    let j = choose|j: int| 0 <= j < fams.len() && #[trigger] fams[j].name@ == n;
                    assert(old(self).families@[j].name@ == n);
                }
                if old(self).has_name(n) && nv.contains(n) {
                    let j = choose|j: int| 0 <= j < fams.len() && #[trigger] old(self).families@[j].name@ == n;
                    assert(fams[j].name@ == n);
                    let a = choose|a: int| 0 <= a < self.families@.len() && #[trigger] self.families@[a].name@ == n;
                }
            }
        }
    }

    /// Adds a column family to the catalog.
    pub fn create_family(&mut self, name: &str) -> (r: Result<u32, Error>)
        requires
            old(self).wf(),
        ensures
            final(self).compacted_through == old(self).compacted_through,
            final(self).wf(),
            final(self).log == old(self).log,
            final(self).last_seq == old(self).last_seq,
            old(self).has_name(name@) ==> r == Err::<u32, Error>(Error { kind: ErrorKind::AlreadyExists }),
            !old(self).has_name(name@) && old(self).next_cf_id == u32::MAX ==> r == Err::<u32, Error>(
                Error { kind: ErrorKind::OutOfRange },
            ),
            !old(self).has_name(name@) && old(self).next_cf_id < u32::MAX ==> r.is_ok(),
            r.is_err() ==> *final(self) == *old(self),
            r.is_ok() ==> {
                &&& final(self).next_cf_id == old(self).next_cf_id + 1
                &&& final(self).names() == old(self).names().push(name@)
                &&& final(self).families@.last().id == r.unwrap()
                &&& !old(self).has_cf(r.unwrap())
            },
    {
        match self.find_family(name) {
            Some(_) => {
                return Err(Error::new(ErrorKind::AlreadyExists));
            },
            None => {},
        }
        if self.next_cf_id == u32::MAX {
            return Err(Error::new(ErrorKind::OutOfRange));
        }
        let id = self.next_cf_id;
        let ghost old_names = self.names();
        self.families.push(FamilyEntry { name: String::from_str(name), id });
        self.next_cf_id = id + 1;
        assert(self.names() =~= old_names.push(name@));
        proof {
            let fs = self.families@;
            assert forall|i: int, j: int| 0 <= i < j < fs.len() implies #[trigger] fs[i].name@ != #[trigger] fs[j].name@ by {
                if j == fs.len() - 1 {
                    assert(old(self).families@[i] == fs[i]);
                } else {
                    assert(old(self).families@[i] == fs[i]);
                    assert(old(self).families@[j] == fs[j]);
                }
            }
            assert forall|i: int, j: int| 0 <= i < j < fs.len() implies #[trigger] fs[i].id != #[trigger] fs[j].id by {
                assert(old(self).families@[i] == fs[i]);
                if j < fs.len() - 1 {
                    assert(old(self).families@[j] == fs[j]);
                }
            }
            assert forall|i: int| 0 <= i < fs.len() implies #[trigger] fs[i].id < self.next_cf_id by {
                if i < fs.len() - 1 {
                    assert(old(self).families@[i] == fs[i]);
                }
            }
            assert(!old(self).has_cf(id)) by {
                if old(self).has_cf(id) {
                    let k = choose|k: int| 0 <= k < old(self).families@.len() && #[trigger] old(self).families@[k].id == id;
                    assert(old(self).families@[k].id < old(self).next_cf_id);
                }
            }
        }
        Ok(id)
    }

    /// Removes a column family from the catalog. Its records stay in the log
    /// until compaction; the default family cannot be dropped.
    pub fn drop_family(&mut self, name: &str) -> (r: Result<(), Error>)
        requires
            old(self).wf(),
        ensures
            final(self).compacted_through == old(self).compacted_through,
            final(self).wf(),
            final(self).log == old(self).log,
            final(self).last_seq == old(self).last_seq,
            !old(self).has_name(name@) ==> r == Err::<(), Error>(Error { kind: ErrorKind::NotFound }),
            name@ == default_cf_name() ==> r == Err::<(), Error>(Error { kind: ErrorKind::InvalidOperation }),
            old(self).has_name(name@) && name@ != default_cf_name() ==> r.is_ok(),
            r.is_err() ==> *final(self) == *old(self),
            r.is_ok() ==> !final(self).has_name(name@),
            r.is_ok() ==> exists|i: int|
                0 < i < old(self).families@.len() && old(self).families@[i].name@ == name@
                    && #[trigger] final(self).names() == old(self).names().remove(i),
    {
        match self.find_family(name) {
            None => Err(Error::new(ErrorKind::NotFound)),
            Some(i) => {
                if i == 0 {
                    return Err(Error::new(ErrorKind::InvalidOperation));
                }
                let ghost old_names = self.names();
                let ghost old_fams = self.families@;
                self.families.remove(i);
                assert(self.names() =~= old_names.remove(i as int));
                proof {
                    let fs = self.families@;
                    assert(fs =~= old_fams.remove(i as int));
                    assert forall|a: int, b: int| 0 <= a < b < fs.len() implies #[trigger] fs[a].name@ != #[trigger] fs[b].name@ by {
                        let oa = if a < i { a } else { a + 1 };
                        let ob = if b < i { b } else { b + 1 };
                        assert(fs[a] == old_fams[oa]);
                        assert(fs[b] == old_fams[ob]);
                    }
                    assert forall|a: int, b: int| 0 <= a < b < fs.len() implies #[trigger] fs[a].id != #[trigger] fs[b].id by {
                        let oa = if a < i { a } else { a + 1 };
                        let ob = if b < i { b } else { b + 1 };
                        assert(fs[a] == old_fams[oa]);
                        assert(fs[b] == old_fams[ob]);
                    }
                    assert forall|a: int| 0 <= a < fs.len() implies #[trigger] fs[a].id < self.next_cf_id by {
                        let oa = if a < i { a } else { a + 1 };
                        assert(fs[a] == old_fams[oa]);
                    }
                    assert(old_fams[0].name@ == default_cf_name());
                    if self.has_name(name@) {
                        let k = choose|k: int| 0 <= k < fs.len() && #[trigger] fs[k].name@ == name@;
                        let ok = if k < i { k } else { k + 1 };
                        assert(fs[k] == old_fams[ok]);
                        if ok < i { assert(old_fams[ok].name@ != old_fams[i as int].name@); }
                        else { assert(old_fams[i as int].name@ != old_fams[ok].name@); }
                    }
                }
                Ok(())
            },
        }
    }

    /// Commits a batch atomically: every operation becomes visible at one new
    /// sequence number, or none does.
    pub fn write(&mut self, batch: &Vec<BatchOp>) -> (r: Result<u64, Error>)
        requires
            old(self).wf(),
        ensures
            final(self).compacted_through == old(self).compacted_through,
            final(self).wf(),
            final(self).families == old(self).families,
            final(self).next_cf_id == old(self).next_cf_id,
            old(self).last_seq == u64::MAX ==> r == Err::<u64, Error>(Error { kind: ErrorKind::OutOfRange }),
            old(self).last_seq < u64::MAX && (exists|i: int| 0 <= i < batch@.len() && !old(self).has_cf(#[trigger] batch@[i].cf))
                ==> r == Err::<u64, Error>(Error { kind: ErrorKind::InvalidOperation }),
            old(self).last_seq < u64::MAX && (forall|i: int| 0 <= i < batch@.len() ==> old(self).has_cf(#[trigger] batch@[i].cf))
                ==> r.is_ok(),
            r.is_err() ==> *final(self) == *old(self),
            r.is_ok() ==> {
                &&& r.unwrap() == old(self).last_seq + 1
                &&& final(self).last_seq == r.unwrap()
                &&& final(self).log_view() == old(self).log_view() + batch_records(batch_view(batch@), r.unwrap())
            },
    {
        if self.last_seq == u64::MAX {
            return Err(Error::new(ErrorKind::OutOfRange));
        }
        let mut i: usize = 0;
        while i < batch.len()
            invariant
                i <= batch@.len(),
                *self == *old(self),
                self.wf(),
                self.last_seq < u64::MAX,
                forall|j: int| 0 <= j < i ==> self.has_cf(#[trigger] batch@[j].cf),
            decreases batch@.len() - i,
        {
            if !self.contains_cf(batch[i].cf) {
                return Err(Error::new(ErrorKind::InvalidOperation));
            }
            i = i + 1;
        }
        let seq = self.last_seq + 1;
        let ghost old_log = self.log_view();
        let mut k: usize = 0;
        while k < batch.len()
            invariant
                k <= batch@.len(),
                seq == old(self).last_seq + 1,
                self.families == old(self).families,
                self.next_cf_id == old(self).next_cf_id,
                self.files == old(self).files,
                self.flushed == old(self).flushed,
                self.last_seq == old(self).last_seq,
                self.next_file_number == old(self).next_file_number,
                self.compacted_through == old(self).compacted_through,
                old_log == old(self).log_view(),
                self.log_view() == old_log + batch_records(batch_view(batch@.subrange(0, k as int)), seq),
            decreases batch@.len() - k,
        {
            let b = &batch[k];
            let rec = Record { cf: b.cf, key: to_vec(b.key.as_slice()), seq, op: crate::version::copy_op(&b.op) };
            proof {
                lemma_view_log_push(self.log@, rec);
                assert(batch_records(batch_view(batch@.subrange(0, k + 1)), seq) =~= batch_records(batch_view(batch@.subrange(0, k as int)), seq).push(rec@));
            }
            self.log.push(rec);
            k = k + 1;
        }
        self.last_seq = seq;
        proof {
            assert(batch@.subrange(0, batch@.len() as int) =~= batch@);
            let lv = self.log_view();
            let br = batch_records(batch_view(batch@), seq);
            assert forall|a: int| 0 <= a < lv.len() implies lv[a].seq <= seq by {
                if a >= old_log.len() {
                    assert(lv[a] == br[a - old_log.len()]);
                } else {
                    assert(lv[a] == old_log[a]);
                }
            }
            assert forall|a: int, b: int| 0 <= a <= b < lv.len() implies lv[a].seq <= lv[b].seq by {
                if b >= old_log.len() {
                    assert(lv[b] == br[b - old_log.len()]);
                    if a < old_log.len() {
                        assert(lv[a] == old_log[a]);
                    } else {
                        assert(lv[a] == br[a - old_log.len()]);
                    }
                } else {
                    assert(lv[a] == old_log[a]);
                    assert(lv[b] == old_log[b]);
                }
            }
        }
        Ok(seq)
    }

    /// Reads a key as of sequence number `horizon`.
    pub fn get(&self, cf: u32, key: &[u8], horizon: u64, mo: Option<MergeOperator>) -> (r: Result<Option<Vec<u8>>, Error>)
        ensures
            read_result(self.value(cf, key@, horizon, mo), r),
    {
        to_read_result(lookup(&self.log, cf, key, horizon, mo))
    }

    /// The sequence number of the newest write to `(cf, key)`, 0 if none.
    pub fn latest_seq_of(&self, cf: u32, key: &[u8]) -> (r: u64)
        ensures
            r == key_seq(self.log_view(), cf, key@),
    {
        let mut i: usize = self.log.len();
        assert(self.log_view().subrange(0, i as int) =~= self.log_view());
        while i > 0
            invariant
                i <= self.log@.len(),
                key_seq(self.log_view(), cf, key@) == key_seq(self.log_view().subrange(0, i as int), cf, key@),
            decreases i,
        {
            let r = &self.log[i - 1];
            proof {
                let sub = self.log_view().subrange(0, i as int);
                assert(sub.last() == r@);
                assert(sub.drop_last() =~= self.log_view().subrange(0, i - 1));
            }
            if r.cf == cf && crate::bytes::bytes_eq(r.key.as_slice(), key) {
                return r.seq;
            }
            i = i - 1;
        }
        0
    }

    /// The writes committed at sequence number `seq` or later, as one batch per
    /// sequence number, in commit order.
    pub fn updates_since(&self, seq: u64) -> (r: Result<Vec<UpdateBatch>, Error>)
        requires
            self.wf(),
        ensures
            0 < self.compacted_through && seq <= self.compacted_through ==> r == Err::<Vec<UpdateBatch>, Error>(Error { kind: ErrorKind::OutOfRange }),
            !(0 < self.compacted_through && seq <= self.compacted_through) ==> r.is_ok()
                && batches_wf(r.unwrap()@)
                && flatten(r.unwrap()@) == self.log_view().filter(|x: RecordView| x.seq >= seq),
    {
        if 0 < self.compacted_through && seq <= self.compacted_through {
            return Err(Error::new(ErrorKind::OutOfRange));
        }
        let ghost lv = self.log_view();
        let mut out: Vec<UpdateBatch> = Vec::new();
        let mut i: usize = 0;
        while i < self.log.len()
            invariant
                self.wf(),
                lv == self.log_view(),
                i <= self.log@.len(),
                batches_wf(out@),
                out@.len() > 0 && i < self.log@.len() ==> out@.last().seq <= lv[i as int].seq,
                flatten(out@) == lv.subrange(0, i as int).filter(|x: RecordView| x.seq >= seq),
            decreases self.log@.len() - i,
        {
            proof {
                let sub = lv.subrange(0, i + 1);
                assert(sub.drop_last() =~= lv.subrange(0, i as int));
                assert(sub.last() == self.log@[i as int]@);
                reveal(Seq::filter);
            }
            let ghost o0 = out@;
            if self.log[i].seq >= seq {
                let rec = copy_record(&self.log[i]);
                let s = rec.seq;
                let n = out.len();
                if n > 0 && out[n - 1].seq == s {
                    let mut last = out.pop().unwrap();
                    let ghost r0 = last.records@;
                    proof { lemma_view_log_push(last.records@, rec); }
                    last.records.push(rec);
                    out.push(last);
                    proof {
                        assert(out@.drop_last() =~= o0.drop_last());
                        assert(flatten(o0) == flatten(o0.drop_last()) + view_log(r0));
                        assert(flatten(out@) =~= flatten(o0) + seq![lv[i as int]]);
                        assert forall|b: int| 0 <= b < out@.len() implies (#[trigger] out@[b]).records@.len() > 0
                            && forall|k: int| 0 <= k < out@[b].records@.len() ==> (#[trigger] out@[b].records@[k]).seq == out@[b].seq by {
                            if b < n - 1 { assert(out@[b] == o0[b]); }
                            else {
                                assert forall|k: int| 0 <= k < out@[b].records@.len() implies (#[trigger] out@[b].records@[k]).seq == out@[b].seq by {
                                    if k < r0.len() { assert(out@[b].records@[k] == r0[k]); assert(o0[b].records@[k] == r0[k]); }
                                }
                            }
                        }
                        assert forall|a: int, b: int| 0 <= a < b < out@.len() implies (#[trigger] out@[a]).seq < (#[trigger] out@[b]).seq by {
                            assert(out@[a] == o0[a]);
                            if b < n - 1 { assert(out@[b] == o0[b]); }
                        }
                    }
                } else {
                    let mut records: Vec<Record> = Vec::new();
                    proof { lemma_view_log_push(records@, rec); }
                    records.push(rec);
                    out.push(UpdateBatch { seq: s, records });
                    proof {
                        assert(out@.drop_last() =~= o0);
                        assert(view_log(out@.last().records@) =~= seq![lv[i as int]]);
                        assert(flatten(out@) =~= flatten(o0) + seq![lv[i as int]]);
                        assert forall|b: int| 0 <= b < out@.len() implies (#[trigger] out@[b]).records@.len() > 0
                            && forall|k: int| 0 <= k < out@[b].records@.len() ==> (#[trigger] out@[b].records@[k]).seq == out@[b].seq by {
                            if b < n { assert(out@[b] == o0[b]); }
                        }
                        assert forall|a: int, b: int| 0 <= a < b < out@.len() implies (#[trigger] out@[a]).seq < (#[trigger] out@[b]).seq by {
                            assert(out@[a] == o0[a]);
                            if b < n { assert(out@[b] == o0[b]); }
                            else if a < n - 1 {
                                assert(o0[a].seq < o0[n - 1].seq);
                            }
                        }
                    }
                }
            }
            proof {
                if out@.len() > 0 && i + 1 < self.log@.len() {
                    assert(lv[i as int].seq <= lv[i + 1].seq);
                }
            }
            i = i + 1;
        }
        assert(lv.subrange(0, self.log@.len() as int) =~= lv);
        Ok(out)
    }

    /// Moves the memtable into a new level-0 table file.
    pub fn flush(&mut self)
        requires
            old(self).wf(),
        ensures
            final(self).wf(),
            final(self).log == old(self).log,
            final(self).families == old(self).families,
            final(self).next_cf_id == old(self).next_cf_id,
            final(self).last_seq == old(self).last_seq,
            final(self).compacted_through == old(self).compacted_through,
            old(self).next_file_number < u64::MAX ==> final(self).flushed == final(self).log@.len(),
    {
        if self.flushed < self.log.len() && self.next_file_number < u64::MAX {
            let f = TableFile { number: self.next_file_number, level: 0, start: self.flushed, end: self.log.len() };
            let ghost old_files = self.files@;
            self.files.push(f);
            self.flushed = self.log.len();
            self.next_file_number = self.next_file_number + 1;
            proof {
                let fs = self.files@;
                assert forall|k: int| 0 <= k < fs.len() implies #[trigger] fs[k].start < fs[k].end by {
                    if k < old_files.len() { assert(fs[k] == old_files[k]); }
                }
                assert forall|k: int| 0 <= k < fs.len() - 1 implies #[trigger] fs[k].end == fs[k + 1].start by {
                    assert(fs[k] == old_files[k]);
                    if k + 1 < old_files.len() { assert(fs[k + 1] == old_files[k + 1]); }
                }
                if old_files.len() > 0 { assert(fs[0] == old_files[0]); }
                assert forall|k: int| 0 <= k < fs.len() implies (#[trigger] fs[k]).level >= 0 && fs[k].number < self.next_file_number by {
                    if k < old_files.len() { assert(fs[k] == old_files[k]); }
                }
                assert forall|a: int, b: int| 0 <= a < b < fs.len() implies (#[trigger] fs[a]).number < (#[trigger] fs[b]).number by {
                    assert(fs[a] == old_files[a]);
                    if b < old_files.len() { assert(fs[b] == old_files[b]); }
                }
            }
        }
    }

    /// The records of the column families in the catalog: those of dropped
    /// families are left out. Reads of the families in the catalog see the
    /// same values at every sequence number.
    pub fn live_records(&self) -> (out: Vec<Record>)
        requires
            self.wf(),
        ensures
            seq_sorted(view_log(out@)),
            seqs_bounded(view_log(out@), self.last_seq),
            forall|i: int| 0 <= i < out@.len() ==> self.has_cf((#[trigger] out@[i]).cf),
            forall|cf: u32, key: Seq<u8>, h: u64, mo: Option<MergeOperator>| self.has_cf(cf) ==> #[trigger] value_at(view_log(out@), cf, key, h, mo)
                == value_at(self.log_view(), cf, key, h, mo),
    {
        let ghost lv = self.log_view();
        let mut out: Vec<Record> = Vec::new();
        let mut i: usize = 0;
        assert(lv.subrange(0, 0) =~= Seq::<RecordView>::empty());
        assert(view_log(out@) =~= Seq::<RecordView>::empty());
        while i < self.log.len()
            invariant
                self.wf(),
                i <= self.log@.len(),
                lv == self.log_view(),
                seq_sorted(view_log(out@)),
                forall|k: int| 0 <= k < out@.len() ==> (#[trigger] out@[k]).seq <= self.last_seq,
                forall|k: int| 0 <= k < out@.len() && i < self.log@.len() ==> (#[trigger] out@[k]).seq <= lv[i as int].seq,
                forall|k: int| 0 <= k < out@.len() ==> self.has_cf((#[trigger] out@[k]).cf),
                forall|cf: u32, key: Seq<u8>, h: u64, mo: Option<MergeOperator>| self.has_cf(cf) ==> #[trigger] value_at(view_log(out@), cf, key, h, mo)
                    == value_at(lv.subrange(0, i as int), cf, key, h, mo),
            decreases self.log@.len() - i,
        {
            let ghost before = out@;
            let ghost sub = lv.subrange(0, i + 1);
            assert(sub.drop_last() =~= lv.subrange(0, i as int));
            assert(sub.last() == lv[i as int]);
            assert(lv[i as int] == self.log@[i as int]@);
            assert(lv[i as int].seq <= self.last_seq);
            if self.contains_cf(self.log[i].cf) {
                let rec = copy_record(&self.log[i]);
                proof { lemma_view_log_push(out@, rec); }
                out.push(rec);
                proof {
                    let ov = view_log(out@);
                    assert(ov.drop_last() =~= view_log(before));
                    assert(ov.last() == lv[i as int]);
                    assert forall|cf: u32, key: Seq<u8>, h: u64, mo: Option<MergeOperator>| self.has_cf(cf) implies #[trigger] value_at(ov, cf, key, h, mo)
                        == value_at(sub, cf, key, h, mo) by {
                        assert(value_at(view_log(before), cf, key, h, mo) == value_at(lv.subrange(0, i as int), cf, key, h, mo));
                    }
                    assert forall|a: int, b: int| 0 <= a <= b < ov.len() implies ov[a].seq <= ov[b].seq by {
                        if b < before.len() {
                            assert(ov[a] == view_log(before)[a]);
                            assert(ov[b] == view_log(before)[b]);
                        } else if a < before.len() {
                            assert(ov[a] == view_log(before)[a]);
                            assert(before[a].seq <= lv[i as int].seq);
                        }
                    }
                }
            } else {
                proof {
                    assert forall|cf: u32, key: Seq<u8>, h: u64, mo: Option<MergeOperator>| self.has_cf(cf) implies #[trigger] value_at(view_log(out@), cf, key, h, mo)
                        == value_at(sub, cf, key, h, mo) by {
                        assert(!visible(sub.last(), cf, key, h));
                        assert(value_at(view_log(before), cf, key, h, mo) == value_at(lv.subrange(0, i as int), cf, key, h, mo));
                    }
                }
            }
            proof {
                assert forall|k: int| 0 <= k < out@.len() && i + 1 < self.log@.len() implies (#[trigger] out@[k]).seq <= lv[i + 1].seq by {
                    assert(lv[i as int].seq <= lv[i + 1].seq);
                    if k < before.len() {
                        assert(out@[k] == before[k]);
                    }
                }
            }
            i = i + 1;
        }
        assert(lv.subrange(0, i as int) =~= lv);
        out
    }

    /// Compacts the whole store: drops the records of dropped column
    /// families, then collapses every key's history up to `horizon` into one
    /// level-1 table, leaving the newer records in a level-0 table. Reads of
    /// the families in the catalog at `horizon` or above are unchanged.
    #[verifier::rlimit(50)]
    pub fn compact(&mut self, horizon: u64, mt: &MergeTable) -> (r: Result<(), Error>)
        requires
            old(self).wf(),
            horizon <= old(self).last_seq,
        ensures
            final(self).wf(),
            final(self).families == old(self).families,
            final(self).next_cf_id == old(self).next_cf_id,
            final(self).last_seq == old(self).last_seq,
            forall|cf: u32, key: Seq<u8>, h: u64| old(self).has_cf(cf) && horizon <= h ==> #[trigger] final(self).value(cf, key, h, mt.op_for(cf)) == old(self).value(cf, key, h, mt.op_for(cf)),
            r.is_ok() ==> final(self).compacted_through == if horizon > old(self).compacted_through { horizon } else { old(self).compacted_through },
            r.is_ok() ==> collapsed(final(self).log_view(), horizon),
            r.is_ok() ==> forall|i: int| 0 <= i < final(self).log@.len() ==> final(self).has_cf((#[trigger] final(self).log@[i]).cf),
            r.is_err() ==> *final(self) == *old(self),
            old(self).next_file_number >= u64::MAX - 1 ==> r == Err::<(), Error>(Error { kind: ErrorKind::OutOfRange }),
            old(self).next_file_number < u64::MAX - 1 && r.is_err() ==> r == Err::<(), Error>(Error { kind: ErrorKind::Corruption })
                && exists|cf: u32, key: Seq<u8>| old(self).has_cf(cf) && #[trigger] old(self).value(cf, key, horizon, mt.op_for(cf)) == ValueState::Unmergeable,
            old(self).next_file_number < u64::MAX - 1
                && (forall|cf: u32, key: Seq<u8>| old(self).has_cf(cf) ==> #[trigger] old(self).value(cf, key, horizon, mt.op_for(cf)) != ValueState::Unmergeable)
                ==> r.is_ok(),
            r.is_ok() ==> forall|cf: u32, key: Seq<u8>| old(self).has_cf(cf) ==> #[trigger] old(self).value(cf, key, horizon, mt.op_for(cf)) != ValueState::Unmergeable,
    {
        if self.next_file_number >= u64::MAX - 1 {
            return Err(Error::new(ErrorKind::OutOfRange));
        }
        let purged = self.live_records();
        let res = compact_log(&purged, horizon, mt);
        match res {
            Err(e) => {
                proof {
                    let i = choose|i: int| 0 <= i < purged@.len() && purged@[i].seq <= horizon && value_at(
                        view_log(purged@), #[trigger] purged@[i].cf, purged@[i].key@, horizon, mt.op_for(purged@[i].cf)) == ValueState::Unmergeable;
                    assert(self.has_cf(purged@[i].cf));
                    assert(self.value(purged@[i].cf, purged@[i].key@, horizon, mt.op_for(purged@[i].cf)) == ValueState::Unmergeable);
                }
                Err(e)
            },
            Ok(out) => {
                proof {
                    assert forall|cf: u32, key: Seq<u8>| old(self).has_cf(cf) implies #[trigger] old(self).value(cf, key, horizon, mt.op_for(cf)) != ValueState::Unmergeable by {
                        let pv = view_log(purged@);
                        if old(self).value(cf, key, horizon, mt.op_for(cf)) == ValueState::Unmergeable {
                            assert(value_at(pv, cf, key, horizon, mt.op_for(cf)) == ValueState::Unmergeable);
                            lemma_not_absent_visible(pv, cf, key, horizon, mt.op_for(cf));
                            let i = choose|i: int| 0 <= i < pv.len() && visible(#[trigger] pv[i], cf, key, horizon);
                            assert(pv[i] == purged@[i]@);
                            assert(value_at(pv, purged@[i].cf, purged@[i].key@, horizon, mt.op_for(purged@[i].cf)) != ValueState::Unmergeable);
                        }
                    }
                }
                let mut p: usize = 0;
                while p < out.len() && out[p].seq <= horizon
                    invariant
                        p <= out@.len(),
                    decreases out@.len() - p,
                {
                    p = p + 1;
                }
                let mut files: Vec<TableFile> = Vec::new();
                let first = self.next_file_number;
                let second = first + 1;
                if p > 0 {
                    files.push(TableFile { number: first, level: 1, start: 0, end: p });
                }
                if p < out.len() {
                    files.push(TableFile { number: second, level: 0, start: p, end: out.len() });
                }
                proof {
                    assert forall|k: int| 0 <= k < out@.len() implies old(self).has_cf((#[trigger] out@[k]).cf) by {
                        let j = choose|j: int| 0 <= j < purged@.len() && out@[k].cf == (#[trigger] purged@[j]).cf;
                        assert(old(self).has_cf(purged@[j].cf));
                    }
                    assert(seqs_bounded(view_log(purged@), self.last_seq));
                }
                let ghost outv = out@;
                self.next_file_number = second + 1;
                self.flushed = out.len();
                self.log = out;
                self.files = files;
                if horizon > self.compacted_through {
                    self.compacted_through = horizon;
                }
                assert forall|i: int| 0 <= i < self.log@.len() implies self.has_cf((#[trigger] self.log@[i]).cf) by {
                    assert(self.log@[i] == outv[i]);
                    assert(old(self).has_cf(outv[i].cf));
                    let j = choose|j: int| 0 <= j < old(self).families@.len() && #[trigger] old(self).families@[j].id == outv[i].cf;
                    assert(self.families@[j].id == outv[i].cf);
                }
                Ok(())
            },
        }
    }

    /// Describes each table file.
    pub fn live_files(&self) -> (r: Vec<LiveFile>)
        requires
            self.wf(),
        ensures
            r@.len() == self.files@.len(),
            forall|k: int| 0 <= k < r@.len() ==> describes(#[trigger] r@[k], self.files@[k], self.log_view().subrange(self.files@[k].start as int, self.files@[k].end as int)),
            forall|k: int| 0 <= k < r@.len() ==> (#[trigger] r@[k]).level >= 0,
            forall|a: int, b: int| 0 <= a < b < r@.len() ==> (#[trigger] r@[a]).number < (#[trigger] r@[b]).number,
    {
        let mut r: Vec<LiveFile> = Vec::new();
        let mut k: usize = 0;
        while k < self.files.len()
            invariant
                self.wf(),
                k <= self.files@.len(),
                r@.len() == k,
                forall|j: int| 0 <= j < k ==> describes(#[trigger] r@[j], self.files@[j], self.log_view().subrange(self.files@[j].start as int, self.files@[j].end as int)),
            decreases self.files@.len() - k,
        {
            proof { self.lemma_file_in_log(k as int); }
            let f = self.describe_file(self.files[k]);
            r.push(f);
            k = k + 1;
        }
        r
    }

    proof fn lemma_file_in_log(&self, k: int)
        requires
            self.wf(),
            0 <= k < self.files@.len(),
        ensures
            self.files@[k].start < self.files@[k].end <= self.log@.len(),
        decreases self.files@.len() - k,
    {
        if k < self.files@.len() - 1 {
            self.lemma_file_in_log(k + 1);
        }
    }

    fn describe_file(&self, t: TableFile) -> (f: LiveFile)
        requires
            t.start < t.end <= self.log@.len(),
        ensures
            describes(f, t, self.log_view().subrange(t.start as int, t.end as int)),
    {
        let ghost lv = self.log_view();
        let mut deletions: u64 = 0;
        let mut size: usize = 0;
        let mut smallest: usize = t.start;
        let mut largest: usize = t.start;
        let mut i: usize = t.start;
        while i < t.end
            invariant
                t.start <= i <= t.end <= self.log@.len(),
                lv == self.log_view(),
                t.start <= smallest < t.end,
                t.start <= largest < t.end,
                deletions == count_deletions(lv.subrange(t.start as int, i as int)),
                deletions <= i - t.start,
                size == if data_size(lv.subrange(t.start as int, i as int)) <= usize::MAX { data_size(lv.subrange(t.start as int, i as int)) } else { usize::MAX as nat },
                i > t.start ==> smallest < i && largest < i,
                i == t.start ==> smallest == t.start && largest == t.start,
                forall|j: int| t.start <= j < i ==> !lex_lt(#[trigger] lv[j].key, lv[smallest as int].key),
                forall|j: int| t.start <= j < i ==> !lex_lt(lv[largest as int].key, #[trigger] lv[j].key),
            decreases t.end - i,
        {
            let r = &self.log[i];
            assert(lv[i as int] == r@);
            assert(lv[smallest as int] == self.log@[smallest as int]@);
            assert(lv[largest as int] == self.log@[largest as int]@);
            proof {
                let sub = lv.subrange(t.start as int, i + 1);
                assert(sub.drop_last() =~= lv.subrange(t.start as int, i as int));
                assert(sub.last() == r@);
            }
            match &r.op {
                Op::Delete => { deletions = deletions + 1; },
                _ => {},
            }
            let n: usize = r.key.len();
            let m: usize = match &r.op {
                Op::Put(v) => v.len(),
                Op::Delete => 0,
                Op::Merge(v) => v.len(),
            };
            if size > usize::MAX - n { size = usize::MAX; } else { size = size + n; }
            if size > usize::MAX - m { size = usize::MAX; } else { size = size + m; }
            if i > t.start {
                if lex_less(r.key.as_slice(), self.log[smallest].key.as_slice()) {
                    proof {
                        assert forall|j: int| t.start <= j < i implies !lex_lt(#[trigger] lv[j].key, lv[i as int].key) by {
                            if lex_lt(lv[j].key, lv[i as int].key) {
                                lemma_lex_lt_transitive(lv[j].key, lv[i as int].key, lv[smallest as int].key);
                            }
                        }
                        crate::bytes::lemma_lex_lt_irreflexive(lv[i as int].key);
                    }
                    smallest = i;
                }
                if lex_less(self.log[largest].key.as_slice(), r.key.as_slice()) {
                    proof {
                        assert forall|j: int| t.start <= j < i implies !lex_lt(lv[i as int].key, #[trigger] lv[j].key) by {
                            if lex_lt(lv[i as int].key, lv[j].key) {
                                lemma_lex_lt_transitive(lv[largest as int].key, lv[i as int].key, lv[j].key);
                            }
                        }
                        crate::bytes::lemma_lex_lt_irreflexive(lv[i as int].key);
                    }
                    largest = i;
                }
            } else {
                proof { crate::bytes::lemma_lex_lt_irreflexive(lv[i as int].key); }
            }
            i = i + 1;
        }
        let ghost sub = lv.subrange(t.start as int, t.end as int);
        proof {
            assert(sub[smallest - t.start].key == lv[smallest as int].key);
            assert(sub[largest - t.start].key == lv[largest as int].key);
            assert forall|j: int| 0 <= j < sub.len() implies !lex_lt(#[trigger] sub[j].key, lv[smallest as int].key) by {
                assert(sub[j] == lv[t.start + j]);
            }
            assert forall|j: int| 0 <= j < sub.len() implies !lex_lt(lv[largest as int].key, #[trigger] sub[j].key) by {
                assert(sub[j] == lv[t.start + j]);
            }
        }
        LiveFile {
            number: t.number,
            size,
            level: t.level,
            start_key: Some(to_vec(self.log[smallest].key.as_slice())),
            end_key: Some(to_vec(self.log[largest].key.as_slice())),
            num_entries: (t.end - t.start) as u64,
            num_deletions: deletions,
        }
    }
}

impl View for FamilyEntry {
    type V = Seq<char>;

    open spec fn view(&self) -> Seq<char> {
        self.name@
    }
}

/// The string "default".
pub fn default_name() -> (r: String)
    ensures
        r@ == default_cf_name(),
{
    let r = String::from_str("default");
    proof {
        reveal_strlit("default");
    }
    assert(r@ =~= default_cf_name());
    r
}

} // verus!
