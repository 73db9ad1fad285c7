//! The resolved manifest, and the lock step that pins each package's outputs.
use vstd::prelude::*;

use crate::lockfile::{has_key, keys_distinct, lemma_lookup_at, lemma_lookup_absent, lock_of, lookup, Lockfile, PackageLock, PackageLockView};
use crate::package::Package;
use crate::store_path::{parse_full, StorePath, StorePathError};
use crate::system::System;
use crate::text::string_views;

verus! {

/// One platform's part of the manifest.
#[derive(Debug)]
pub struct SystemManifest {
    /// Packages by name.
    pub packages: Vec<(String, Package)>,
    /// Binary caches, in the order to ask them.
    pub caches: Vec<String>,
    /// Variables by name, as templates over `{<package>.<output>}`.
    pub env: Vec<(String, String)>,
}

/// The manifest, resolved per platform.
#[derive(Debug)]
pub struct Manifest {
    pub systems: Vec<(System, SystemManifest)>,
}

/// A platform's packages, keyed by name.
pub open spec fn packages_view(m: SystemManifest) -> Seq<(Seq<char>, Package)> {
    m.packages@.map_values(|e: (String, Package)| (e.0@, e.1))
}

/// Whether the keys of `v` are distinct.
fn names_distinct(v: &Vec<(String, Package)>) -> (r: bool)
    ensures
        r == keys_distinct(v@.map_values(|e: (String, Package)| (e.0@, e.1))),
{
    let ghost kv = v@.map_values(|e: (String, Package)| (e.0@, e.1));
    let mut i: usize = 0;
    while i < v.len()
        invariant
            kv == v@.map_values(|e: (String, Package)| (e.0@, e.1)),
            i <= v@.len(),
            forall|a: int, b: int| 0 <= a < b < v@.len() && a < i ==> kv[a].0 != kv[b].0,
        decreases v.len() - i,
    {
        let mut j: usize = i + 1;
        while j < v.len()
            invariant
                kv == v@.map_values(|e: (String, Package)| (e.0@, e.1)),
                i < j <= v@.len(),
                forall|a: int, b: int| 0 <= a < b < v@.len() && a < i ==> kv[a].0 != kv[b].0,
                forall|b: int| i < b < j ==> kv[i as int].0 != kv[b].0,
            decreases v.len() - j,
        {
            if crate::text::str_eq(v[i].0.as_str(), v[j].0.as_str()) {
                assert(kv[i as int].0 == kv[j as int].0);
                return false;
            }
            j += 1;
        }
        i += 1;
    }
    true
}

impl Manifest {
    /// Tests `wf`.
    pub fn is_well_formed(&self) -> (r: bool)
        ensures
            r == self.wf(),
    {
        let mut i: usize = 0;
        while i < self.systems.len()
            invariant
                i <= self.systems@.len(),
                forall|a: int, b: int| 0 <= a < b < self.systems@.len() && a < i ==> self.systems@[a].0
                    != self.systems@[b].0,
                forall|a: int| 0 <= a < i ==> keys_distinct(packages_view(#[trigger] self.systems@[a].1)),
            decreases self.systems.len() - i,
        {
            if !names_distinct(&self.systems[i].1.packages) {
                return false;
            }
            let mut j: usize = i + 1;
            while j < self.systems.len()
                invariant
                    i < j <= self.systems@.len(),
                    forall|a: int, b: int| 0 <= a < b < self.systems@.len() && a < i ==> self.systems@[a].0
                        != self.systems@[b].0,
                    forall|b: int| i < b < j ==> self.systems@[i as int].0 != self.systems@[b].0,
                decreases self.systems.len() - j,
            {
                if self.systems[i].0 == self.systems[j].0 {
                    return false;
                }
                j += 1;
            }
            i += 1;
        }
        true
    }

    /// The position of platform `s`.
    pub fn systems_position(&self, s: System) -> (r: Option<usize>)
        requires
            self.wf(),
        ensures
            match r {
                Some(i) => i < self.systems@.len() && self.systems@[i as int].0 == s && lookup(
                    self.systems@,
                    s,
                ) == Some(self.systems@[i as int].1),
                None => lookup(self.systems@, s) is None,
            },
    {
        let mut i: usize = 0;
        while i < self.systems.len()
            invariant
                self.wf(),
                i <= self.systems@.len(),
                forall|j: int| 0 <= j < i ==> self.systems@[j].0 != s,
            decreases self.systems.len() - i,
        {
            if self.systems[i].0 == s {
                proof {
                    lemma_lookup_at(self.systems@, i as int);
                }
                return Some(i);
            }
            i += 1;
        }
        proof {
            lemma_lookup_absent(self.systems@, s);
        }
        None
    }

    /// Platforms are distinct, and so are the package names within each.
    pub open spec fn wf(&self) -> bool {
        &&& keys_distinct(self.systems@)
        &&& forall|i: int|
            0 <= i < self.systems@.len() ==> keys_distinct(packages_view(#[trigger] self.systems@[i].1))
    }

    /// The package named `n` on platform `s`.
    pub open spec fn package_of(&self, s: System, n: Seq<char>) -> Option<Package> {
        match lookup(self.systems@, s) {
            Some(m) => lookup(packages_view(m), n),
            None => None,
        }
    }

    /// What locking keeps of the previous lockfile `prior` for package `n` on platform
    /// `s`: its entry, when the package's digest is the one recorded there.
    pub open spec fn reused(&self, old: Seq<(System, Seq<(Seq<char>, PackageLockView)>)>, s: System, n: Seq<char>) -> Option<PackageLockView> {
        match self.package_of(s, n) {
            Some(p) => match lock_of(old, s, n) {
                Some(l) => if l.0 == p.digest() {
                    Some(l)
                } else {
                    None
                },
                None => None,
            },
            None => None,
        }
    }

    /// Package `n` of platform `s` was handled by the time the lock step reached
    /// package `j` of platform `i`.
    pub open spec fn handled(&self, i: int, j: int, s: System, n: Seq<char>) -> bool {
        ||| exists|a: int|
            0 <= a < i && #[trigger] self.systems@[a].0 == s && has_key(
                packages_view(self.systems@[a].1),
                n,
            )
        ||| (0 <= i < self.systems@.len() && self.systems@[i].0 == s && exists|b: int|
            0 <= b < j && #[trigger] packages_view(self.systems@[i].1)[b].0 == n)
    }
}

/// A package whose digest equals the one recorded for it keeps its previous lock
/// entry as it was, and so needs no request to its source.
pub proof fn lemma_unchanged_package_keeps_its_lock(
    m: Manifest,
    prior: Seq<(System, Seq<(Seq<char>, PackageLockView)>)>,
    s: System,
    n: Seq<char>,
    p: Package,
    l: PackageLockView,
)
    requires
        m.package_of(s, n) == Some(p),
        lock_of(prior, s, n) == Some(l),
        l.0 == p.digest(),
    ensures
        m.reused(prior, s, n) == Some(l),
{
}

/// A package whose outputs must be asked of its source.
#[derive(Debug)]
pub struct FetchJob {
    pub system: System,
    pub name: String,
    /// Where the package stands in the manifest.
    pub system_index: usize,
    pub package_index: usize,
}

/// The lock state of a run: the manifest, the lockfile being built, and the host platform.
#[derive(Debug)]
pub struct State {
    pub lockfile: Lockfile,
    pub manifest: Manifest,
    pub system: System,
}

/// The outputs kept from a source's answer `raw` (output name, full path): all of them,
/// or those named in `wanted` when it is not empty; none at all when a path is invalid.
pub open spec fn selected_outputs(raw: Seq<(Seq<char>, Seq<char>)>, wanted: Seq<Seq<char>>) -> Option<
    Seq<(Seq<char>, Seq<char>)>,
>
    decreases raw.len(),
{
    if raw.len() == 0 {
        Some(seq![])
    } else {
        match selected_outputs(raw.drop_last(), wanted) {
            None => None,
            Some(prev) => match parse_full(raw.last().1) {
                None => None,
                Some(p) => if wanted.len() == 0 || wanted.contains(raw.last().0) {
                    Some(prev.push((raw.last().0, p)))
                } else {
                    Some(prev)
                },
            },
        }
    }
}

/// The abstract value of a source's answer: `(output name, full path)` pairs.
pub open spec fn raw_view(raw: Seq<(String, String)>) -> Seq<(Seq<char>, Seq<char>)> {
    raw.map_values(|e: (String, String)| (e.0@, e.1@))
}

/// Why an answer could not be recorded.
#[derive(Debug)]
pub enum RecordError {
    /// The job does not name a package of the manifest.
    UnknownJob,
    /// An output path is not a store path.
    InvalidPath(StorePathError),
}

/// Parses the paths of a source's answer and keeps the outputs in `wanted` (all when
/// it is empty).
pub fn select_outputs(raw: &Vec<(String, String)>, wanted: &Vec<String>) -> (r: Result<
    Vec<(String, StorePath)>,
    StorePathError,
>)
    ensures
        match selected_outputs(raw_view(raw@), string_views(wanted@)) {
            Some(sel) => r matches Ok(v) && crate::lockfile::output_view(v@) == sel,
            None => r is Err,
        },
{
    let ghost rv = raw_view(raw@);
    let ghost wv = string_views(wanted@);
    let mut out: Vec<(String, StorePath)> = Vec::new();
    let mut i: usize = 0;
    while i < raw.len()
        invariant
            rv == raw_view(raw@),
            wv == string_views(wanted@),
            i <= raw@.len(),
            selected_outputs(rv.subrange(0, i as int), wv) == Some(
                crate::lockfile::output_view(out@),
            ),
        decreases raw.len() - i,
    {
        let ghost pre = rv.subrange(0, i as int);
        assert(rv.subrange(0, i + 1).drop_last() =~= pre);
        assert(rv.subrange(0, i + 1).last() == (raw@[i as int].0@, raw@[i as int].1@));
        match StorePath::new(raw[i].1.as_str()) {
            Ok(p) => {
                if wanted.len() == 0 || wanted_contains(wanted, &raw[i].0) {
                    let ghost before = crate::lockfile::output_view(out@);
                    out.push((raw[i].0.clone(), p));
                    assert(crate::lockfile::output_view(out@) =~= before.push(
                        (raw@[i as int].0@, out@[out@.len() - 1].1@),
                    ));
                }
            },
            Err(e) => {
                proof {
                    lemma_selection_fails(rv, wv, i as int + 1);
                }
                return Err(e);
            },
        }
        i += 1;
    }
    assert(rv.subrange(0, i as int) =~= rv);
    Ok(out)
}

/// Once a path is invalid, the whole answer is refused.
pub proof fn lemma_selection_fails(raw: Seq<(Seq<char>, Seq<char>)>, wanted: Seq<Seq<char>>, k: int)
    requires
        0 <= k <= raw.len(),
        selected_outputs(raw.subrange(0, k), wanted) is None,
    ensures
        selected_outputs(raw, wanted) is None,
    decreases raw.len() - k,
{
    if k < raw.len() {
        assert(raw.subrange(0, k + 1).drop_last() =~= raw.subrange(0, k));
        lemma_selection_fails(raw, wanted, k + 1);
    } else {
        assert(raw.subrange(0, k) =~= raw);
    }
}

/// Whether `name` is one of `wanted`.
fn wanted_contains(wanted: &Vec<String>, name: &String) -> (r: bool)
    ensures
        r == string_views(wanted@).contains(name@),
{
    let mut i: usize = 0;
    while i < wanted.len()
        invariant
            i <= wanted@.len(),
            forall|k: int| 0 <= k < i ==> wanted@[k]@ != name@,
        decreases wanted.len() - i,
    {
        if crate::text::str_eq(wanted[i].as_str(), name.as_str()) {
            assert(string_views(wanted@)[i as int] == name@);
            return true;
        }
        i += 1;
    }
    assert(!string_views(wanted@).contains(name@)) by {
        if string_views(wanted@).contains(name@) {
            let k = choose|k: int| 0 <= k < wanted@.len() && #[trigger] string_views(wanted@)[k] == name@;
            assert(wanted@[k]@ != name@);
        }
    }
    false
}

impl State {
    /// A state with an empty lockfile.
    pub fn new(manifest: Manifest, system: System) -> (r: State)
        ensures
            r.manifest == manifest,
            r.system == system,
            r.lockfile@ == crate::lockfile::LockfileView::empty(),
            r.lockfile.wf(),
    {
        State { lockfile: Lockfile::new(), manifest, system }
    }

    /// Records a source's answer `raw` for the package of `job`: its outputs (all, or
    /// those the package names) with the package's digest. Nothing changes when a path
    /// is invalid or the job names no package.
    pub fn record(&mut self, job: &FetchJob, raw: &Vec<(String, String)>) -> (r: Result<(), RecordError>)
        requires
            old(self).lockfile.wf(),
        ensures
            final(self).manifest == old(self).manifest,
            final(self).system == old(self).system,
            final(self).lockfile.wf(),
            !(job.system_index < old(self).manifest.systems@.len() && job.package_index
                < old(self).manifest.systems@[job.system_index as int].1.packages@.len()) ==> (r
                matches Err(RecordError::UnknownJob) && final(self).lockfile@ == old(self).lockfile@),
            job.system_index < old(self).manifest.systems@.len() && job.package_index
                < old(self).manifest.systems@[job.system_index as int].1.packages@.len() ==> {
                let e = old(self).manifest.systems@[job.system_index as int];
                let pkg = e.1.packages@[job.package_index as int];
                match selected_outputs(raw_view(raw@), string_views(pkg.1.outputs@)) {
                    Some(sel) => r is Ok && forall|t: System, n: Seq<char>|
                        #[trigger] lock_of(final(self).lockfile@, t, n) == if t == e.0 && n
                            == pkg.0@ {
                            Some((pkg.1.digest(), sel))
                        } else {
                            lock_of(old(self).lockfile@, t, n)
                        },
                    None => r matches Err(RecordError::InvalidPath(_)) && final(self).lockfile@
                        == old(self).lockfile@,
                }
            },
    {
        if job.system_index >= self.manifest.systems.len() || job.package_index
            >= self.manifest.systems[job.system_index].1.packages.len() {
            return Err(RecordError::UnknownJob);
        }
        let s = self.manifest.systems[job.system_index].0;
        let name = &self.manifest.systems[job.system_index].1.packages[job.package_index].0;
        let pkg = &self.manifest.systems[job.system_index].1.packages[job.package_index].1;
        match select_outputs(raw, &pkg.outputs) {
            Ok(outputs) => {
                let lock = PackageLock { hash: pkg.hash(), outputs };
                self.lockfile.insert(s, name.clone(), lock);
                Ok(())
            },
            Err(e) => Err(RecordError::InvalidPath(e)),
        }
    }

    /// The lock step: for each package of each platform of the manifest, keeps the
    /// entry of the previous lockfile `prior` when its digest equals the package's, and
    /// else lists a job to ask the package's source. The lockfile being built holds
    /// the kept entries and nothing else.
    pub fn lock(&mut self, prior: &Lockfile) -> (jobs: Vec<FetchJob>)
        requires
            old(self).manifest.wf(),
            old(self).lockfile@ == crate::lockfile::LockfileView::empty(),
            old(self).lockfile.wf(),
            prior.wf(),
        ensures
            final(self).manifest == old(self).manifest,
            final(self).system == old(self).system,
            final(self).lockfile.wf(),
            forall|s: System| #[trigger] has_key(final(self).lockfile@, s) <==> has_key(
                final(self).manifest.systems@,
                s,
            ),
            forall|s: System, n: Seq<char>|
                #[trigger] lock_of(final(self).lockfile@, s, n) == final(self).manifest.reused(
                    prior@,
                    s,
                    n,
                ),
            forall|k: int|
                0 <= k < jobs@.len() ==> {
                    let j = #[trigger] jobs@[k];
                    &&& j.system_index < final(self).manifest.systems@.len()
                    &&& j.package_index < final(self).manifest.systems@[j.system_index as int].1.packages@.len()
                    &&& final(self).manifest.systems@[j.system_index as int].0 == j.system
                    &&& final(self).manifest.systems@[j.system_index as int].1.packages@[j.package_index as int].0@ == j.name@
                    &&& final(self).manifest.reused(prior@, j.system, j.name@) is None
                },
            forall|s: System, n: Seq<char>|
                #[trigger] final(self).manifest.package_of(s, n) is Some && final(self).manifest.reused(
                    prior@,
                    s,
                    n,
                ) is None ==> exists|k: int|
                    0 <= k < jobs@.len() && jobs@[k].system == s && jobs@[k].name@ == n,
    {
        let mut jobs: Vec<FetchJob> = Vec::new();
        let mut i: usize = 0;
        let ghost m = self.manifest.systems@;
        while i < self.manifest.systems.len()
            invariant
                self.manifest == old(self).manifest,
                self.system == old(self).system,
                m == self.manifest.systems@,
                self.manifest.wf(),
                prior.wf(),
                self.lockfile.wf(),
                i <= m.len(),
                forall|t: System| #[trigger] has_key(self.lockfile@, t) <==> exists|a: int|
                    0 <= a < i && #[trigger] m[a].0 == t,
                forall|s: System, n: Seq<char>|
                    #[trigger] lock_of(self.lockfile@, s, n) == if self.manifest.handled(
                        i as int,
                        0,
                        s,
                        n,
                    ) {
                        self.manifest.reused(prior@, s, n)
                    } else {
                        None
                    },
                forall|k: int|
                    0 <= k < jobs@.len() ==> {
                        let j = #[trigger] jobs@[k];
                        &&& j.system_index < m.len()
                        &&& j.package_index < m[j.system_index as int].1.packages@.len()
                        &&& m[j.system_index as int].0 == j.system
                        &&& m[j.system_index as int].1.packages@[j.package_index as int].0@ == j.name@
                        &&& self.manifest.reused(prior@, j.system, j.name@) is None
                    },
                forall|s: System, n: Seq<char>|
                    #[trigger] self.manifest.package_of(s, n) is Some && self.manifest.reused(prior@, s, n)
                        is None && self.manifest.handled(i as int, 0, s, n) ==> exists|k: int|
                        0 <= k < jobs@.len() && jobs@[k].system == s && jobs@[k].name@ == n,
            decreases m.len() - i,
        {
            let s = self.manifest.systems[i].0;
            let ghost lf_before = self.lockfile@;
            self.lockfile.add_system(s);
            assert forall|t: System, n: Seq<char>| #[trigger] lock_of(self.lockfile@, t, n)
                == lock_of(lf_before, t, n) by {
                if t != s {
                    assert(lookup(self.lockfile@, t) == lookup(lf_before, t));
                }
            }
            assert forall|t: System| #[trigger] has_key(self.lockfile@, t) <==> exists|a: int|
                0 <= a < i + 1 && #[trigger] m[a].0 == t by {
                if t == s {
                    assert(m[i as int].0 == t);
                }
                if exists|a: int| 0 <= a < i + 1 && #[trigger] m[a].0 == t {
                    let a = choose|a: int| 0 <= a < i + 1 && #[trigger] m[a].0 == t;
                    if a < i {
                        assert(exists|a: int| 0 <= a < i && #[trigger] m[a].0 == t);
                    }
                }
            }
            let old_pkgs = prior.system(s);
            let mut j: usize = 0;
            let ghost pk = packages_view(m[i as int].1);
            assert(keys_distinct(pk));
            proof {
                lemma_lookup_at(m, i as int);
            }
            assert forall|t: System, n: Seq<char>| self.manifest.handled(i as int, 0, t, n)
                == self.manifest.handled(i as int, 0, t, n) by {}
            while j < self.manifest.systems[i].1.packages.len()
                invariant
                    self.manifest == old(self).manifest,
                    self.system == old(self).system,
                    m == self.manifest.systems@,
                    self.manifest.wf(),
                    prior.wf(),
                    self.lockfile.wf(),
                    i < m.len(),
                    s == m[i as int].0,
                    pk == packages_view(m[i as int].1),
                    keys_distinct(pk),
                    lookup(m, s) == Some(m[i as int].1),
                    match old_pkgs {
                        Some(l) => lookup(prior@, s) == Some(l@) && l.wf(),
                        None => lookup(prior@, s) is None,
                    },
                    j <= pk.len(),
                    forall|t: System| #[trigger] has_key(self.lockfile@, t) <==> exists|a: int|
                        0 <= a < i + 1 && #[trigger] m[a].0 == t,
                    forall|t: System, n: Seq<char>|
                        #[trigger] lock_of(self.lockfile@, t, n) == if self.manifest.handled(
                            i as int,
                            j as int,
                            t,
                            n,
                        ) {
                            self.manifest.reused(prior@, t, n)
                        } else {
                            None
                        },
                    forall|k: int|
                        0 <= k < jobs@.len() ==> {
                            let jb = #[trigger] jobs@[k];
                            &&& jb.system_index < m.len()
                            &&& jb.package_index < m[jb.system_index as int].1.packages@.len()
                            &&& m[jb.system_index as int].0 == jb.system
                            &&& m[jb.system_index as int].1.packages@[jb.package_index as int].0@
                                == jb.name@
                            &&& self.manifest.reused(prior@, jb.system, jb.name@) is None
                        },
                    forall|t: System, n: Seq<char>|
                        #[trigger] self.manifest.package_of(t, n) is Some && self.manifest.reused(
                            prior@,
                            t,
                            n,
                        ) is None && self.manifest.handled(i as int, j as int, t, n) ==> exists|k: int|
                            0 <= k < jobs@.len() && jobs@[k].system == t && jobs@[k].name@ == n,
                decreases pk.len() - j,
            {
                let name = &self.manifest.systems[i].1.packages[j].0;
                let pkg = &self.manifest.systems[i].1.packages[j].1;
                let ghost nv = name@;
                proof {
                    lemma_lookup_at(pk, j as int);
                }
                assert(pk[j as int] == (nv, *pkg));
                assert(self.manifest.package_of(s, nv) == Some(*pkg));
                let h = pkg.hash();
                let found = match old_pkgs {
                    Some(l) => l.get(name.as_str()),
                    None => None,
                };
                assert(match found {
                    Some(p) => lock_of(prior@, s, nv) == Some(p@),
                    None => lock_of(prior@, s, nv) is None,
                });
                let reuse = match found {
                    Some(p) => p.hash.same(&h),
                    None => false,
                };
                let ghost lf0 = self.lockfile@;
                let ghost jobs0 = jobs@;
                assert forall|t: System, n: Seq<char>| #[trigger]
                    self.manifest.handled(i as int, j + 1, t, n) == (self.manifest.handled(
                        i as int,
                        j as int,
                        t,
                        n,
                    ) || (t == s && n == nv)) by {
                    if t == s && n == nv {
                        assert(pk[j as int].0 == n);
                    }
                    if self.manifest.handled(i as int, j + 1, t, n) && !self.manifest.handled(
                        i as int,
                        j as int,
                        t,
                        n,
                    ) {
                        if exists|b: int|
                            0 <= b < j + 1 && #[trigger] packages_view(m[i as int].1)[b].0 == n {
                            let b = choose|b: int|
                                0 <= b < j + 1 && #[trigger] packages_view(m[i as int].1)[b].0
                                    == n;
                            assert(b == j);
                        }
                    }
                }
                if reuse {
                    match found {
                        Some(p) => {
                            let ghost pv = p@;
                            let ghost keys0 = self.lockfile@;
                            self.lockfile.insert(s, name.clone(), p.clone());
                            assert forall|t: System| #[trigger] has_key(self.lockfile@, t)
                                <==> has_key(keys0, t) by {
                                if t == s {
                                    assert(m[i as int].0 == t);
                                }
                            }
                            assert(self.manifest.reused(prior@, s, nv) == Some(pv));
                        },
                        None => {},
                    }
                } else {
                    assert(self.manifest.reused(prior@, s, nv) is None);
                    jobs.push(
                        FetchJob {
                            system: s,
                            name: name.clone(),
                            system_index: i,
                            package_index: j,
                        },
                    );
                    assert(jobs@[jobs0.len() as int].system == s);
                    assert forall|k: int| 0 <= k < jobs@.len() implies {
                        let jb = #[trigger] jobs@[k];
                        &&& jb.system_index < m.len()
                        &&& jb.package_index < m[jb.system_index as int].1.packages@.len()
                        &&& m[jb.system_index as int].0 == jb.system
                        &&& m[jb.system_index as int].1.packages@[jb.package_index as int].0@
                            == jb.name@
                        &&& self.manifest.reused(prior@, jb.system, jb.name@) is None
                    } by {
                        if k < jobs0.len() {
                            assert(jobs@[k] == jobs0[k]);
                        } else {
                            assert(pk[j as int].0 == m[i as int].1.packages@[j as int].0@);
                        }
                    }
                    assert forall|t: System, n: Seq<char>| #[trigger]
                        self.manifest.package_of(t, n) is Some && self.manifest.reused(prior@, t, n)
                            is None && self.manifest.handled(i as int, j + 1, t, n) implies exists|
                        k: int,
                    |
                        0 <= k < jobs@.len() && jobs@[k].system == t && jobs@[k].name@ == n by {
                        if t == s && n == nv {
                            assert(jobs@[jobs0.len() as int].name@ == n);
                        } else {
                            let k = choose|k: int|
                                0 <= k < jobs0.len() && jobs0[k].system == t && jobs0[k].name@ == n;
                            assert(jobs@[k] == jobs0[k]);
                        }
                    }
                }
                j += 1;
            }
            assert forall|t: System, n: Seq<char>| #[trigger]
                self.manifest.handled(i + 1, 0, t, n) == self.manifest.handled(
                    i as int,
                    j as int,
                    t,
                    n,
                ) by {
                if self.manifest.handled(i as int, j as int, t, n) && !exists|a: int|
                    0 <= a < i && #[trigger] m[a].0 == t && has_key(packages_view(m[a].1), n) {
                    let b = choose|b: int| 0 <= b < j && #[trigger] packages_view(m[i as int].1)[b].0 == n;
                    assert(m[i as int].0 == t && has_key(packages_view(m[i as int].1), n));
                }
                if self.manifest.handled(i + 1, 0, t, n) && !exists|a: int|
                    0 <= a < i && #[trigger] m[a].0 == t && has_key(packages_view(m[a].1), n) {
                    let a = choose|a: int|
                        0 <= a < i + 1 && #[trigger] m[a].0 == t && has_key(packages_view(m[a].1), n);
                    assert(a == i);
                    let b = choose|b: int| 0 <= b < pk.len() && pk[b].0 == n;
                    assert(packages_view(m[i as int].1)[b].0 == n);
                }
            }
            i += 1;
        }
        assert forall|t: System| #[trigger] has_key(self.lockfile@, t) <==> has_key(m, t) by {
            if has_key(m, t) {
                let a = choose|a: int| 0 <= a < m.len() && m[a].0 == t;
                assert(exists|a: int| 0 <= a < i && #[trigger] m[a].0 == t);
            }
        }
        assert forall|s: System, n: Seq<char>| #[trigger]
            self.manifest.package_of(s, n) is Some implies self.manifest.handled(i as int, 0, s, n) by {
            if !has_key(m, s) {
                lemma_lookup_absent(m, s);
            } else {
                let a = choose|a: int| 0 <= a < m.len() && m[a].0 == s;
                lemma_lookup_at(m, a);
                let pv = packages_view(m[a].1);
                if !has_key(pv, n) {
                    lemma_lookup_absent(pv, n);
                }
                assert(m[a].0 == s && has_key(packages_view(m[a].1), n));
            }
        }
        jobs
    }
}

} // verus!
