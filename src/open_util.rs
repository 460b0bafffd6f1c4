//! Opening a stored database: creation, the column families it must name,
//! and the errors an open can end in.
use vstd::prelude::*;
use crate::env::Env;
use crate::error::{Error, ErrorKind};
use crate::merge::MergeOperator;
use crate::options::{ColumnFamilyDescriptor, Options};
use crate::storage::{default_cf_name, default_name, string_views, Storage};

verus! {

/// How a database is opened.
#[derive(Clone, Copy, Debug, PartialEq, Eq, Structural)]
pub enum AccessType {
    ReadWrite,
    ReadOnly { error_if_log_file_exist: bool },
    Secondary,
    WithTTL { ttl_secs: u64 },
}

impl AccessType {
    /// Modes that write, hold the database open exclusively and may create it.
    pub open spec fn writable(&self) -> bool {
        match self {
            AccessType::ReadWrite => true,
            AccessType::WithTTL { .. } => true,
            _ => false,
        }
    }

    pub fn is_writable(&self) -> (r: bool)
        ensures
            r == self.writable(),
    {
        match self {
            AccessType::ReadWrite => true,
            AccessType::WithTTL { .. } => true,
            _ => false,
        }
    }
}

pub open spec fn descriptor_names(cfs: Seq<ColumnFamilyDescriptor>) -> Seq<Seq<char>> {
    cfs.map_values(|d: ColumnFamilyDescriptor| d.name@)
}

/// The families that an open asks for: the given ones, and the default one.
pub open spec fn with_default(names: Seq<Seq<char>>) -> Seq<Seq<char>> {
    if names.contains(default_cf_name()) {
        names
    } else {
        names.push(default_cf_name())
    }
}

pub open spec fn has_duplicates(names: Seq<Seq<char>>) -> bool {
    exists|i: int, j: int| 0 <= i < j < names.len() && #[trigger] names[i] == #[trigger] names[j]
}

/// The catalog holds `name`: the stored one, or that of a database yet to be created.
pub open spec fn catalog_has(env: Env, path: Seq<char>, name: Seq<char>) -> bool {
    match env.index_of(path) {
        Some(i) => env.dbs@[i].storage.has_name(name),
        None => name == default_cf_name(),
    }
}

/// The id the next created column family of the database under `path` gets.
pub open spec fn catalog_next_id(env: Env, path: Seq<char>) -> int {
    match env.index_of(path) {
        Some(i) => env.dbs@[i].storage.next_cf_id as int,
        None => 1,
    }
}

/// The merge operators that the descriptors' options name, in order.
pub open spec fn descriptor_ops(cfs: Seq<ColumnFamilyDescriptor>) -> Seq<Option<MergeOperator>> {
    cfs.map_values(|d: ColumnFamilyDescriptor| d.options.merge_operator)
}

/// The merge operator of the family named `n`: the one that the last of the
/// requested `names` equal to `n` has in `ops`, or `dflt`.
pub open spec fn family_op(names: Seq<Seq<char>>, ops: Seq<Option<MergeOperator>>, n: Seq<char>, dflt: Option<MergeOperator>) -> Option<MergeOperator>
    decreases names.len(),
{
    if names.len() == 0 {
        dflt
    } else if names.last() == n && names.len() <= ops.len() && ops[names.len() - 1].is_some() {
        ops[names.len() - 1]
    } else {
        family_op(names.drop_last(), ops, n, dflt)
    }
}

/// Where no descriptor names a merge operator, every family gets the default.
pub proof fn lemma_family_op_default(names: Seq<Seq<char>>, ops: Seq<Option<MergeOperator>>, dflt: Option<MergeOperator>)
    requires
        forall|k: int| 0 <= k < ops.len() ==> (#[trigger] ops[k]).is_none(),
    ensures
        forall|n: Seq<char>| #[trigger] family_op(names, ops, n, dflt) == dflt,
        forall|n: Seq<char>| #[trigger] family_op(names, seq![], n, dflt) == dflt,
    decreases names.len(),
{
    if names.len() > 0 {
        lemma_family_op_default(names.drop_last(), ops, dflt);
        assert forall|n: Seq<char>| #[trigger] family_op(names, ops, n, dflt) == dflt by {
            if names.len() <= ops.len() {
                assert(ops[names.len() - 1].is_none());
            }
            assert(family_op(names.drop_last(), ops, n, dflt) == dflt);
        }
        assert forall|n: Seq<char>| #[trigger] family_op(names, seq![], n, dflt) == dflt by {
            assert(family_op(names.drop_last(), seq![], n, dflt) == dflt);
        }
    }
}

/// Why opening `path` asking for the families `names` fails, if it does.
pub open spec fn open_failure(
    env: Env,
    opts: Options,
    path: Seq<char>,
    names: Seq<Seq<char>>,
    access: AccessType,
) -> Option<ErrorKind> {
    let req = with_default(names);
    let idx = env.index_of(path);
    if idx.is_none() && !(access.writable() && opts.create_if_missing) {
        Some(ErrorKind::NotFound)
    } else if idx.is_some() && opts.error_if_exists {
        Some(ErrorKind::AlreadyExists)
    } else if idx.is_some() && access.writable() && env.dbs@[idx.unwrap()].locked {
        Some(ErrorKind::Busy)
    } else if has_duplicates(req) {
        Some(ErrorKind::InvalidOperation)
    } else if (exists|k: int| 0 <= k < req.len() && !catalog_has(env, path, #[trigger] req[k]))
        && !(access.writable() && opts.create_missing_column_families) {
        Some(ErrorKind::InvalidOperation)
    } else if access.writable() && idx.is_some() && (exists|k: int|
        0 <= k < env.dbs@[idx.unwrap()].storage.families@.len() && !req.contains(
            #[trigger] env.dbs@[idx.unwrap()].storage.families@[k].name@,
        )) {
        Some(ErrorKind::InvalidOperation)
    } else if access == (AccessType::ReadOnly { error_if_log_file_exist: true }) && idx.is_some()
        && env.dbs@[idx.unwrap()].storage.flushed < env.dbs@[idx.unwrap()].storage.log@.len() {
        Some(ErrorKind::InvalidOperation)
    } else {
        None
    }
}

/// Whether `names` holds `name`.
pub(crate) fn contains_name(names: &Vec<String>, name: &String) -> (r: bool)
    ensures
        r == string_views(names@).contains(name@),
{
    let mut i: usize = 0;
    while i < names.len()
        invariant
            i <= names@.len(),
            forall|j: int| 0 <= j < i ==> names@[j]@ != name@,
        decreases names@.len() - i,
    {
        if names[i] == *name {
            assert(string_views(names@)[i as int] == name@);
            return true;
        }
        i = i + 1;
    }
    proof {
        if string_views(names@).contains(name@) {
            let k = choose|k: int| 0 <= k < string_views(names@).len() && string_views(names@)[k] == name@;
            assert(names@[k]@ == name@);
        }
    }
    false
}

/// The names of the requested families, with the default family added if missing.
fn requested_names(cfs: &Vec<ColumnFamilyDescriptor>) -> (r: Vec<String>)
    ensures
        string_views(r@) == with_default(descriptor_names(cfs@)),
{
    let mut r: Vec<String> = Vec::new();
    let mut i: usize = 0;
    while i < cfs.len()
        invariant
            i <= cfs@.len(),
            string_views(r@) == descriptor_names(cfs@).subrange(0, i as int),
        decreases cfs@.len() - i,
    {
        let ghost before = r@;
        r.push(cfs[i].name.clone());
        assert(string_views(r@) =~= string_views(before).push(cfs@[i as int].name@));
        assert(string_views(r@) =~= descriptor_names(cfs@).subrange(0, i + 1));
        i = i + 1;
    }
    assert(descriptor_names(cfs@).subrange(0, cfs@.len() as int) =~= descriptor_names(cfs@));
    let d = default_name();
    if !contains_name(&r, &d) {
        let ghost before = r@;
        r.push(d);
        assert(string_views(r@) =~= string_views(before).push(default_cf_name()));
    }
    r
}

/// Whether two of the names are equal.
fn find_duplicate(names: &Vec<String>) -> (r: bool)
    ensures
        r == has_duplicates(string_views(names@)),
{
    let ghost v = string_views(names@);
    let mut i: usize = 0;
    while i < names.len()
        invariant
            i <= names@.len(),
            v == string_views(names@),
            forall|a: int, b: int| 0 <= a < b < names@.len() && a < i ==> v[a] != v[b],
        decreases names@.len() - i,
    {
        let mut j: usize = i + 1;
        while j < names.len()
            invariant
                i < names@.len(),
                i < j <= names@.len(),
                v == string_views(names@),
                forall|a: int, b: int| 0 <= a < b < names@.len() && a < i ==> v[a] != v[b],
                forall|b: int| i < b < j ==> v[i as int] != v[b],
            decreases names@.len() - j,
        {
            if names[i] == names[j] {
                assert(v[i as int] == v[j as int]);
                return true;
            }
            j = j + 1;
        }
        i = i + 1;
    }
    proof {
        if has_duplicates(v) {
            let (a, b) = choose|a: int, b: int| 0 <= a < b < v.len() && #[trigger] v[a] == #[trigger] v[b];
            assert(v[a] != v[b]);
        }
    }
    false
}

/// Opens the database stored under `path` in the given mode, with the
/// requested column families; the default family is always opened.
///
/// A writable open creates the database where `create_if_missing` allows,
/// creates the requested families that are missing where
/// `create_missing_column_families` allows, must name every family of the
/// catalog, and holds the database open until it is closed. The stored
/// state is persisted at once when a writable open succeeds.
#[verifier::rlimit(50)]
pub fn open_cf_descriptors_internal(
    env: &mut Env,
    opts: &Options,
    path: &str,
    cfs: &Vec<ColumnFamilyDescriptor>,
    access: &AccessType,
) -> (r: Result<Storage, Error>)
    requires
        old(env).wf(),
    ensures
        final(env).wf(),
        match open_failure(*old(env), *opts, path@, descriptor_names(cfs@), *access) {
            Some(k) => r == Err::<Storage, Error>(Error { kind: k }) && *final(env) == *old(env),
            None => r.is_ok() || (r == Err::<Storage, Error>(Error { kind: ErrorKind::OutOfRange })
                && *final(env) == *old(env) && catalog_next_id(*old(env), path@) + with_default(descriptor_names(cfs@)).len() > u32::MAX),
        },
        r.is_ok() ==> {
            let st = r.unwrap();
            let req = with_default(descriptor_names(cfs@));
            &&& st.wf()
            &&& access.writable() ==> forall|n: Seq<char>| #[trigger] st.has_name(n) <==> (catalog_has(*old(env), path@, n) || req.contains(n))
            &&& !access.writable() ==> forall|n: Seq<char>| #[trigger] st.has_name(n) <==> req.contains(n)
            &&& old(env).index_of(path@).is_some() ==> st.log_view() == old(env).dbs@[old(env).index_of(path@).unwrap()].storage.log_view()
                && st.last_seq == old(env).dbs@[old(env).index_of(path@).unwrap()].storage.last_seq
            &&& old(env).index_of(path@).is_none() ==> st.log@.len() == 0 && st.last_seq == 0
            &&& access.writable() ==> {
                &&& final(env).index_of(path@).is_some()
                &&& final(env).dbs@[final(env).index_of(path@).unwrap()].storage.same(st)
                &&& final(env).dbs@[final(env).index_of(path@).unwrap()].locked
            }
            &&& !access.writable() ==> *final(env) == *old(env)
        },
{
    let ghost names = descriptor_names(cfs@);
    let ghost fail = open_failure(*old(env), *opts, path@, names, *access);
    let ghost env0 = *env;
    let req = requested_names(cfs);
    let ghost rv = string_views(req@);
    let writable = access.is_writable();
    let idx = env.find(path);
    proof {
        if idx.is_some() {
            env.lemma_index_of(path@, idx.unwrap() as int);
        }
    }
    assert(idx.is_none() ==> catalog_next_id(env0, path@) == 1);
    let mut base = match idx {
        None => {
            if !(writable && opts.create_if_missing) {
                assert(fail == Some(ErrorKind::NotFound));
                return Err(Error::new(ErrorKind::NotFound));
            }
            let st = Storage::new();
            assert(st.names()[0] == st.families@[0].name@);
            st
        },
        Some(i) => {
            if opts.error_if_exists {
                return Err(Error::new(ErrorKind::AlreadyExists));
            }
            if writable && env.dbs[i].locked {
                return Err(Error::new(ErrorKind::Busy));
            }
            env.dbs[i].storage.duplicate()
        },
    };
    proof {
        assert forall|n: Seq<char>| #[trigger] base.has_name(n) <==> catalog_has(env0, path@, n) by {
            match idx {
                Some(i) => {
                    let st = env0.dbs@[i as int].storage;
                    if base.has_name(n) {
                        let k = choose|k: int| 0 <= k < base.families@.len() && #[trigger] base.families@[k].name@ == n;
                        assert(st.families@[k].name@ == n);
                    }
                    if st.has_name(n) {
                        let k = choose|k: int| 0 <= k < st.families@.len() && #[trigger] st.families@[k].name@ == n;
                        assert(base.families@[k] == st.families@[k]);
                    }
                },
                None => {
                    assert(base.names().len() == base.families@.len());
                    if base.has_name(n) {
                        let k = choose|k: int| 0 <= k < base.families@.len() && #[trigger] base.families@[k].name@ == n;
                        assert(base.names()[k] == n);
                    }
                    if n == default_cf_name() {
                        assert(base.families@[0].name@ == n);
                    }
                },
            }
        }
    }
    if find_duplicate(&req) {
        return Err(Error::new(ErrorKind::InvalidOperation));
    }
    assert(fail.is_none() || fail == Some(ErrorKind::InvalidOperation));
    // Every requested family must exist, or be allowed to be created.
    let create_missing = writable && opts.create_missing_column_families;
    let mut k: usize = 0;
    while k < req.len()
        invariant
            k <= req@.len(),
            rv == string_views(req@),
            create_missing == (writable && opts.create_missing_column_families),
            !has_duplicates(rv),
            fail.is_none() || fail == Some(ErrorKind::InvalidOperation),
            *env == env0,
            env0 == *old(env),
            env0.wf(),
            writable == access.writable(),
            idx.is_some() ==> env0.index_of(path@) == Some(idx.unwrap() as int),
            idx.is_none() ==> env0.index_of(path@).is_none(),
            idx.is_some() ==> idx.unwrap() < env0.dbs@.len() && base.same(env0.dbs@[idx.unwrap() as int].storage),
            idx.is_none() ==> base.log@.len() == 0 && base.last_seq == 0,
            fail == open_failure(env0, *opts, path@, names, *access),
            base.next_cf_id as int == catalog_next_id(env0, path@),
            rv == with_default(names),
            names == descriptor_names(cfs@),
            base.wf(),
            forall|n: Seq<char>| #[trigger] base.has_name(n) <==> catalog_has(env0, path@, n),
            !create_missing ==> forall|j: int| 0 <= j < k ==> catalog_has(env0, path@, #[trigger] rv[j]),
        decreases req@.len() - k,
    {
        if !create_missing {
            match base.find_family(req[k].as_str()) {
                None => {
                    assert(!catalog_has(env0, path@, rv[k as int]));
                    return Err(Error::new(ErrorKind::InvalidOperation));
                },
                Some(i) => {
                    assert(rv[k as int] == req@[k as int]@);
                    assert(base.families@[i as int].name@ == rv[k as int]);
                    assert(base.has_name(rv[k as int]));
                },
            }
        }
        k = k + 1;
    }
    // A writable open must name every family of the catalog.
    if writable && idx.is_some() {
        let mut f: usize = 0;
        while f < base.families.len()
            invariant
                f <= base.families@.len(),
                rv == string_views(req@),
                idx.is_some(),
                writable,
                !has_duplicates(rv),
                fail.is_none() || fail == Some(ErrorKind::InvalidOperation),
                base.wf(),
                !create_missing ==> forall|j: int| 0 <= j < req@.len() ==> catalog_has(env0, path@, #[trigger] rv[j]),
                forall|n: Seq<char>| #[trigger] base.has_name(n) <==> catalog_has(env0, path@, n),
                *env == env0,
                env0 == *old(env),
                env0.wf(),
                writable == access.writable(),
                idx.is_some() ==> env0.index_of(path@) == Some(idx.unwrap() as int),
            idx.is_none() ==> env0.index_of(path@).is_none(),
                idx.is_some() ==> idx.unwrap() < env0.dbs@.len() && base.same(env0.dbs@[idx.unwrap() as int].storage),
                idx.is_none() ==> base.log@.len() == 0 && base.last_seq == 0,
                fail == open_failure(env0, *opts, path@, names, *access),
            base.next_cf_id as int == catalog_next_id(env0, path@),
                rv == with_default(names),
                names == descriptor_names(cfs@),
                forall|j: int| 0 <= j < f ==> rv.contains(#[trigger] base.families@[j].name@),
            decreases base.families@.len() - f,
        {
            if !contains_name(&req, &base.families[f].name) {
                proof {
                    let st = env0.dbs@[idx.unwrap() as int].storage;
                    assert(st.families@[f as int] == base.families@[f as int]);
                    assert(!rv.contains(env0.dbs@[env0.index_of(path@).unwrap()].storage.families@[f as int].name@));
                }
                return Err(Error::new(ErrorKind::InvalidOperation));
            }
            f = f + 1;
        }
    }
    proof {
        if idx.is_some() {
            let st = env0.dbs@[idx.unwrap() as int].storage;
            assert(st.log_view().len() == st.log@.len());
            assert(base.log_view().len() == base.log@.len());
        }
    }
    match access {
        AccessType::ReadOnly { error_if_log_file_exist } => {
            if *error_if_log_file_exist && base.flushed < base.log.len() {
                return Err(Error::new(ErrorKind::InvalidOperation));
            }
        },
        _ => {},
    }
    proof {
        if writable && idx.is_some() {
            let st = env0.dbs@[idx.unwrap() as int].storage;
            assert forall|j: int| 0 <= j < st.families@.len() implies rv.contains(#[trigger] st.families@[j].name@) by {
                assert(st.families@[j] == base.families@[j]);
            }
        }
        let req_s = with_default(names);
        assert(!has_duplicates(req_s));
        assert(!((exists|k: int| 0 <= k < req_s.len() && !catalog_has(env0, path@, #[trigger] req_s[k])) && !(access.writable() && opts.create_missing_column_families)));
        assert(!(access.writable() && env0.index_of(path@).is_some() && (exists|k: int|
            0 <= k < env0.dbs@[env0.index_of(path@).unwrap()].storage.families@.len() && !req_s.contains(
                #[trigger] env0.dbs@[env0.index_of(path@).unwrap()].storage.families@[k].name@,
            ))));
        if idx.is_some() {
            let st = env0.dbs@[idx.unwrap() as int].storage;
            assert(st.log_view().len() == st.log@.len());
            assert(base.log_view().len() == base.log@.len());
        }
        assert(!(*access == (AccessType::ReadOnly { error_if_log_file_exist: true }) && env0.index_of(path@).is_some()
        && env0.dbs@[env0.index_of(path@).unwrap()].storage.flushed < env0.dbs@[env0.index_of(path@).unwrap()].storage.log@.len()));
        assert(fail.is_none());
    }
    // Create the requested families that are missing.
    let mut c: usize = 0;
    assert(rv.subrange(0, 0) =~= Seq::<Seq<char>>::empty());
    while c < req.len()
        invariant
            c <= req@.len(),
            rv == string_views(req@),
            !has_duplicates(rv),
            base.wf(),
            fail.is_none(),
            fail == open_failure(env0, *opts, path@, names, *access),
            names == descriptor_names(cfs@),
            forall|n: Seq<char>| #[trigger] base.has_name(n) <==> (catalog_has(env0, path@, n) || rv.subrange(0, c as int).contains(n)),
            idx.is_some() ==> base.log_view() == env0.dbs@[idx.unwrap() as int].storage.log_view()
                && base.last_seq == env0.dbs@[idx.unwrap() as int].storage.last_seq,
            idx.is_none() ==> base.log@.len() == 0 && base.last_seq == 0,
            base.next_cf_id as int <= catalog_next_id(env0, path@) + c,
            *env == env0,
            env0 == *old(env),
            env0.wf(),
            writable == access.writable(),
            idx.is_some() ==> env0.index_of(path@) == Some(idx.unwrap() as int),
            idx.is_none() ==> env0.index_of(path@).is_none(),
            idx.is_some() ==> idx.unwrap() < env0.dbs@.len(),
            rv == with_default(names),
        decreases req@.len() - c,
    {
        let ghost before = base;
        assert(rv.subrange(0, c + 1) =~= rv.subrange(0, c as int).push(rv[c as int]));
        assert(rv[c as int] == req@[c as int]@);
        let mut created = false;
        match base.find_family(req[c].as_str()) {
            Some(_) => {},
            None => {
                match base.create_family(req[c].as_str()) {
                    Err(_) => {
                        assert(before.next_cf_id == u32::MAX);
                        return Err(Error::new(ErrorKind::OutOfRange));
                    },
                    Ok(_) => {
                        created = true;
                    },
                }
            },
        }
        proof {
            assert forall|n: Seq<char>| #[trigger] base.has_name(n) <==> (catalog_has(env0, path@, n) || rv.subrange(0, c + 1).contains(n)) by {
                before.lemma_has_name(n);
                base.lemma_has_name(n);
                if created {
                    assert(base.names() == before.names().push(rv[c as int]));
                    assert(base.names().contains(n) <==> (before.names().contains(n) || n == rv[c as int])) by {
                        if base.names().contains(n) {
                            let k = choose|k: int| 0 <= k < base.names().len() && base.names()[k] == n;
                            if k < before.names().len() {
                                assert(before.names()[k] == n);
                            }
                        }
                        if before.names().contains(n) {
                            let k = choose|k: int| 0 <= k < before.names().len() && before.names()[k] == n;
                            assert(base.names()[k] == n);
                        }
                        if n == rv[c as int] {
                            assert(base.names()[before.names().len() as int] == n);
                        }
                    }
                } else {
                    assert(base == before);
                    if n == rv[c as int] {
                        assert(before.has_name(n));
                    }
                }
                assert(rv.subrange(0, c + 1).contains(n) <==> (rv.subrange(0, c as int).contains(n) || n == rv[c as int])) by {
                    if rv.subrange(0, c as int).contains(n) {
                        let j = choose|j: int| 0 <= j < c && #[trigger] rv.subrange(0, c as int)[j] == n;
                        assert(rv.subrange(0, c + 1)[j] == n);
                    }
                    if rv.subrange(0, c + 1).contains(n) {
                        let j = choose|j: int| 0 <= j < c + 1 && #[trigger] rv.subrange(0, c + 1)[j] == n;
                        if j < c {
                            assert(rv.subrange(0, c as int)[j] == n);
                        }
                    }
                    if n == rv[c as int] {
                        assert(rv.subrange(0, c + 1)[c as int] == n);
                    }
                }
            }
        }
        c = c + 1;
    }
    assert(rv.subrange(0, req@.len() as int) =~= rv);
    if writable {
        let copy = base.duplicate();
        env.store(path, copy, true);
    } else {
        proof {
            if !rv.contains(default_cf_name()) {
                assert(rv =~= names.push(default_cf_name()));
                assert(rv[rv.len() - 1] == default_cf_name());
            }
        }
        base.keep_families(&req);
    }
    Ok(base)
}

} // verus!
