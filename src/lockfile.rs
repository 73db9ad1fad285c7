//! The lockfile: for each platform, each package's input digest and output paths.
use vstd::prelude::*;

use crate::fetch::names;
use crate::package::Base64Hash;
use crate::store_path::StorePath;
use crate::system::System;
use crate::text::str_eq;

verus! {

/// The value paired with the first occurrence of key `k`, if any.
pub open spec fn lookup<K, V>(s: Seq<(K, V)>, k: K) -> Option<V>
    decreases s.len(),
{
    if s.len() == 0 {
        None
    } else if s[0].0 == k {
        Some(s[0].1)
    } else {
        lookup(s.drop_first(), k)
    }
}

/// Whether key `k` occurs in `s`.
pub open spec fn has_key<K, V>(s: Seq<(K, V)>, k: K) -> bool {
    exists|i: int| 0 <= i < s.len() && s[i].0 == k
}

/// The keys of `s` are distinct.
pub open spec fn keys_distinct<K, V>(s: Seq<(K, V)>) -> bool {
    forall|i: int, j: int| 0 <= i < j < s.len() ==> s[i].0 != s[j].0
}

/// With distinct keys, looking up the key at `i` gives the value at `i`.
pub proof fn lemma_lookup_at<K, V>(s: Seq<(K, V)>, i: int)
    requires
        keys_distinct(s),
        0 <= i < s.len(),
    ensures
        lookup(s, s[i].0) == Some(s[i].1),
    decreases s.len(),
{
    if i > 0 {
        assert(keys_distinct(s.drop_first()));
        lemma_lookup_at(s.drop_first(), i - 1);
    }
}

/// A key that does not occur is not found.
pub proof fn lemma_lookup_absent<K, V>(s: Seq<(K, V)>, k: K)
    requires
        !has_key(s, k),
    ensures
        lookup(s, k) is None,
    decreases s.len(),
{
    if s.len() > 0 {
        assert(s[0].0 != k);
        assert forall|i: int| 0 <= i < s.drop_first().len() implies s.drop_first()[i].0 != k by {
            assert(s[i + 1].0 != k);
        }
        lemma_lookup_absent(s.drop_first(), k);
    }
}

/// Looking up in `s` with `(k, v)` appended, when `k` is new.
pub proof fn lemma_lookup_push<K, V>(s: Seq<(K, V)>, k: K, v: V, q: K)
    requires
        !has_key(s, k),
    ensures
        lookup(s.push((k, v)), q) == if q == k {
            Some(v)
        } else {
            lookup(s, q)
        },
    decreases s.len(),
{
    if s.len() == 0 {
        assert(s.push((k, v))[0] == (k, v));
        assert(s.push((k, v)).drop_first() =~= s);
    } else {
        assert(s.push((k, v))[0] == s[0]);
        assert(s.push((k, v)).drop_first() =~= s.drop_first().push((k, v)));
        assert(s[0].0 != k);
        assert(!has_key(s.drop_first(), k)) by {
            if has_key(s.drop_first(), k) {
                let i = choose|i: int| 0 <= i < s.drop_first().len() && s.drop_first()[i].0 == k;
                assert(s[i + 1].0 == k);
            }
        }
        lemma_lookup_push(s.drop_first(), k, v, q);
    }
}

/// Looking up in `s` with the value at `i` replaced.
pub proof fn lemma_lookup_update<K, V>(s: Seq<(K, V)>, i: int, v: V, q: K)
    requires
        keys_distinct(s),
        0 <= i < s.len(),
    ensures
        lookup(s.update(i, (s[i].0, v)), q) == if q == s[i].0 {
            Some(v)
        } else {
            lookup(s, q)
        },
    decreases s.len(),
{
    if i == 0 {
        assert(s.update(i, (s[i].0, v)).drop_first() =~= s.drop_first());
    } else {
        assert(s.update(i, (s[i].0, v)).drop_first() =~= s.drop_first().update(
            i - 1,
            (s[i].0, v),
        ));
        assert(keys_distinct(s.drop_first()));
        lemma_lookup_update(s.drop_first(), i - 1, v, q);
    }
}

/// The locked state of one package.
#[derive(Debug)]
pub struct PackageLock {
    pub hash: Base64Hash,
    pub outputs: Vec<(String, StorePath)>,
}

/// The abstract value of a package lock: digest and `(output, path name)` pairs.
pub type PackageLockView = (Seq<u8>, Seq<(Seq<char>, Seq<char>)>);

/// The abstract value of `(output, path)` pairs.
pub open spec fn output_view(o: Seq<(String, StorePath)>) -> Seq<(Seq<char>, Seq<char>)> {
    o.map_values(|e: (String, StorePath)| (e.0@, e.1@))
}

impl View for PackageLock {
    type V = PackageLockView;

    open spec fn view(&self) -> PackageLockView {
        (self.hash@, output_view(self.outputs@))
    }
}

impl Clone for PackageLock {
    fn clone(&self) -> (r: Self)
        ensures
            r@ == self@,
    {
        let mut outputs: Vec<(String, StorePath)> = Vec::new();
        let mut i: usize = 0;
        while i < self.outputs.len()
            invariant
                i <= self.outputs@.len(),
                output_view(outputs@) == output_view(self.outputs@.subrange(0, i as int)),
            decreases self.outputs.len() - i,
        {
            let e = &self.outputs[i];
            let ghost before = output_view(outputs@);
            outputs.push((e.0.clone(), e.1.clone()));
            assert(output_view(outputs@) =~= before.push((e.0@, e.1@)));
            assert(self.outputs@.subrange(0, i + 1) =~= self.outputs@.subrange(0, i as int).push(
                *e,
            ));
            assert(output_view(self.outputs@.subrange(0, i + 1)) =~= output_view(
                self.outputs@.subrange(0, i as int),
            ).push((e.0@, e.1@)));
            i += 1;
        }
        assert(self.outputs@.subrange(0, i as int) =~= self.outputs@);
        PackageLock { hash: self.hash.clone(), outputs }
    }
}

/// The locks of one platform's packages, by package name.
#[derive(Debug)]
pub struct SystemLockfile {
    pub inner: Vec<(String, PackageLock)>,
}

impl View for SystemLockfile {
    type V = Seq<(Seq<char>, PackageLockView)>;

    open spec fn view(&self) -> Seq<(Seq<char>, PackageLockView)> {
        self.inner@.map_values(|e: (String, PackageLock)| (e.0@, e.1@))
    }
}

impl SystemLockfile {
    /// No packages.
    pub fn new() -> (r: SystemLockfile)
        ensures
            r@ == Seq::<(Seq<char>, PackageLockView)>::empty(),
    {
        let r = SystemLockfile { inner: Vec::new() };
        assert(r@ =~= Seq::<(Seq<char>, PackageLockView)>::empty());
        r
    }

    /// Names are distinct.
    pub open spec fn wf(&self) -> bool {
        keys_distinct(self@)
    }

    /// Tests `wf`.
    pub fn is_well_formed(&self) -> (r: bool)
        ensures
            r == self.wf(),
    {
        let mut i: usize = 0;
        while i < self.inner.len()
            invariant
                i <= self@.len(),
                forall|a: int, b: int| 0 <= a < b < self@.len() && a < i ==> self@[a].0 != self@[b].0,
            decreases self.inner.len() - i,
        {
            let mut j: usize = i + 1;
            while j < self.inner.len()
                invariant
                    i < j <= self@.len(),
                    forall|a: int, b: int| 0 <= a < b < self@.len() && a < i ==> self@[a].0 != self@[b].0,
                    forall|b: int| i < b < j ==> self@[i as int].0 != self@[b].0,
                decreases self.inner.len() - j,
            {
                if str_eq(self.inner[i].0.as_str(), self.inner[j].0.as_str()) {
                    assert(self@[i as int].0 == self@[j as int].0);
                    return false;
                }
                j += 1;
            }
            i += 1;
        }
        true
    }

    /// The position of the package named `name`.
    pub fn position(&self, name: &str) -> (r: Option<usize>)
        ensures
            match r {
                Some(i) => i < self@.len() && self@[i as int].0 == name@,
                None => !has_key(self@, name@),
            },
    {
        let mut i: usize = 0;
        while i < self.inner.len()
            invariant
                i <= self.inner@.len(),
                forall|j: int| 0 <= j < i ==> self@[j].0 != name@,
            decreases self.inner.len() - i,
        {
            if str_eq(self.inner[i].0.as_str(), name) {
                return Some(i);
            }
            i += 1;
        }
        None
    }

    /// The lock of the package named `name`.
    pub fn get(&self, name: &str) -> (r: Option<&PackageLock>)
        requires
            self.wf(),
        ensures
            match r {
                Some(l) => lookup(self@, name@) == Some(l@),
                None => lookup(self@, name@) is None,
            },
    {
        match self.position(name) {
            Some(i) => {
                proof {
                    lemma_lookup_at(self@, i as int);
                }
                Some(&self.inner[i].1)
            },
            None => {
                proof {
                    lemma_lookup_absent(self@, name@);
                }
                None
            },
        }
    }

    /// Sets the lock of the package named `name`, replacing any earlier one.
    pub fn insert(&mut self, name: String, lock: PackageLock)
        requires
            old(self).wf(),
        ensures
            final(self).wf(),
            forall|q: Seq<char>|
                #[trigger] lookup(final(self)@, q) == if q == name@ {
                    Some(lock@)
                } else {
                    lookup(old(self)@, q)
                },
    {
        let ghost lv = lock@;
        let ghost nv = name@;
        match self.position(name.as_str()) {
            Some(i) => {
                let ghost before = self@;
                let mut entry = self.inner.remove(i);
                entry.1 = lock;
                self.inner.insert(i, entry);
                assert(self@ =~= before.update(i as int, (before[i as int].0, lv)));
                assert forall|q: Seq<char>| #[trigger]
                    lookup(self@, q) == if q == nv {
                        Some(lv)
                    } else {
                        lookup(before, q)
                    } by {
                    lemma_lookup_update(before, i as int, lv, q);
                }
            },
            None => {
                let ghost before = self@;
                self.inner.push((name, lock));
                assert(self@ =~= before.push((nv, lv)));
                assert forall|q: Seq<char>| #[trigger]
                    lookup(self@, q) == if q == nv {
                        Some(lv)
                    } else {
                        lookup(before, q)
                    } by {
                    lemma_lookup_push(before, nv, lv, q);
                }
                assert forall|a: int, b: int| 0 <= a < b < self@.len() implies self@[a].0
                    != self@[b].0 by {
                    if b == before.len() {
                        assert(before[a].0 != nv);
                    }
                }
            },
        }
    }
}

/// The lockfile: per platform, the locks of its packages.
#[derive(Debug)]
pub struct Lockfile {
    pub systems: Vec<(System, SystemLockfile)>,
}

/// The abstract value of a lockfile.
pub type LockfileView = Seq<(System, Seq<(Seq<char>, PackageLockView)>)>;

impl View for Lockfile {
    type V = LockfileView;

    open spec fn view(&self) -> LockfileView {
        self.systems@.map_values(|e: (System, SystemLockfile)| (e.0, e.1@))
    }
}

/// The lock of package `name` on platform `s`.
pub open spec fn lock_of(l: LockfileView, s: System, name: Seq<char>) -> Option<PackageLockView> {
    match lookup(l, s) {
        Some(pkgs) => lookup(pkgs, name),
        None => None,
    }
}

/// The output path names of a platform's packages, in order.
pub open spec fn flat_outputs(pkgs: Seq<(Seq<char>, PackageLockView)>) -> Seq<Seq<char>>
    decreases pkgs.len(),
{
    if pkgs.len() == 0 {
        seq![]
    } else {
        flat_outputs(pkgs.drop_last()) + pkgs.last().1.1.map_values(
            |o: (Seq<char>, Seq<char>)| o.1,
        )
    }
}

impl Lockfile {
    /// Version 0, no platforms.
    pub fn new() -> (r: Lockfile)
        ensures
            r@ == LockfileView::empty(),
            r.wf(),
    {
        let r = Lockfile { systems: Vec::new() };
        assert(r@ =~= LockfileView::empty());
        r
    }

    /// Platforms are distinct, and so are the names within each.
    pub open spec fn wf(&self) -> bool {
        &&& keys_distinct(self@)
        &&& forall|i: int| 0 <= i < self.systems@.len() ==> (#[trigger] self.systems@[i]).1.wf()
    }

    /// Tests `wf`.
    pub fn is_well_formed(&self) -> (r: bool)
        ensures
            r == self.wf(),
    {
        let mut i: usize = 0;
        while i < self.systems.len()
            invariant
                i <= self@.len(),
                forall|a: int, b: int| 0 <= a < b < self@.len() && a < i ==> self@[a].0 != self@[b].0,
                forall|a: int| 0 <= a < i ==> (#[trigger] self.systems@[a]).1.wf(),
            decreases self.systems.len() - i,
        {
            if !self.systems[i].1.is_well_formed() {
                return false;
            }
            let mut j: usize = i + 1;
            while j < self.systems.len()
                invariant
                    i < j <= self@.len(),
                    forall|a: int, b: int| 0 <= a < b < self@.len() && a < i ==> self@[a].0 != self@[b].0,
                    forall|b: int| i < b < j ==> self@[i as int].0 != self@[b].0,
                decreases self.systems.len() - j,
            {
                if self.systems[i].0 == self.systems[j].0 {
                    assert(self@[i as int].0 == self@[j as int].0);
                    return false;
                }
                j += 1;
            }
            i += 1;
        }
        true
    }

    /// The position of platform `s`.
    pub fn position(&self, s: System) -> (r: Option<usize>)
        ensures
            match r {
                Some(i) => i < self@.len() && self@[i as int].0 == s,
                None => !has_key(self@, s),
            },
    {
        let mut i: usize = 0;
        while i < self.systems.len()
            invariant
                i <= self.systems@.len(),
                forall|j: int| 0 <= j < i ==> self@[j].0 != s,
            decreases self.systems.len() - i,
        {
            if self.systems[i].0 == s {
                return Some(i);
            }
            i += 1;
        }
        None
    }

    /// The locks of platform `s`.
    pub fn system(&self, s: System) -> (r: Option<&SystemLockfile>)
        requires
            self.wf(),
        ensures
            match r {
                Some(l) => lookup(self@, s) == Some(l@) && l.wf(),
                None => lookup(self@, s) is None,
            },
    {
        match self.position(s) {
            Some(i) => {
                proof {
                    lemma_lookup_at(self@, i as int);
                }
                assert(self.systems@[i as int].1.wf());
                Some(&self.systems[i].1)
            },
            None => {
                proof {
                    lemma_lookup_absent(self@, s);
                }
                None
            },
        }
    }

    /// Adds platform `s` with no packages, unless it is present.
    pub fn add_system(&mut self, s: System)
        requires
            old(self).wf(),
        ensures
            final(self).wf(),
            lookup(final(self)@, s) matches Some(_),
            forall|t: System| t != s ==> #[trigger] lookup(final(self)@, t) == lookup(old(self)@, t),
            forall|n: Seq<char>| #[trigger] lock_of(final(self)@, s, n) == lock_of(old(self)@, s, n),
            forall|t: System| #[trigger] has_key(final(self)@, t) <==> has_key(old(self)@, t) || t == s,
    {
        match self.position(s) {
            Some(i) => {
                proof {
                    lemma_lookup_at(self@, i as int);
                }
            },
            None => {
                let ghost before = self@;
                let e = SystemLockfile::new();
                let ghost ev = e@;
                self.systems.push((s, e));
                assert(self@ =~= before.push((s, ev)));
                assert forall|t: System| #[trigger] lookup(self@, t) == if t == s {
                    Some(ev)
                } else {
                    lookup(before, t)
                } by {
                    lemma_lookup_push(before, s, ev, t);
                }
                assert forall|a: int, b: int| 0 <= a < b < self@.len() implies self@[a].0
                    != self@[b].0 by {
                    if b == before.len() {
                        assert(before[a].0 != s);
                    }
                }
                assert forall|i: int| 0 <= i < self.systems@.len() implies (
                #[trigger] self.systems@[i]).1.wf() by {
                    if i == before.len() {
                        assert(keys_distinct(ev));
                    }
                }
                assert forall|n: Seq<char>| #[trigger] lock_of(self@, s, n) == lock_of(before, s, n) by {
                    lemma_lookup_absent(before, s);
                }
                assert forall|t: System| #[trigger] has_key(self@, t) <==> has_key(before, t) || t == s by {
                    if has_key(before, t) {
                        let k = choose|k: int| 0 <= k < before.len() && before[k].0 == t;
                        assert(self@[k] == before[k]);
                    }
                    if t == s {
                        assert(self@[before.len() as int].0 == s);
                    }
                    if has_key(self@, t) && t != s {
                        let k = choose|k: int| 0 <= k < self@.len() && self@[k].0 == t;
                        assert(k < before.len());
                        assert(before[k].0 == t);
                    }
                }
            },
        }
    }

    /// Sets the lock of package `name` on platform `s`, adding the platform if needed.
    pub fn insert(&mut self, s: System, name: String, lock: PackageLock)
        requires
            old(self).wf(),
        ensures
            final(self).wf(),
            forall|t: System, n: Seq<char>|
                #[trigger] lock_of(final(self)@, t, n) == if t == s && n == name@ {
                    Some(lock@)
                } else {
                    lock_of(old(self)@, t, n)
                },
            forall|t: System| #[trigger] has_key(final(self)@, t) <==> has_key(old(self)@, t) || t == s,
    {
        let ghost orig = self@;
        self.add_system(s);
        let ghost mid = self@;
        let i = match self.position(s) {
            Some(i) => i,
            None => {
                proof {
                    lemma_lookup_absent(self@, s);
                }
                return ;
            },
        };
        proof {
            lemma_lookup_at(mid, i as int);
        }
        let ghost nv = name@;
        let ghost lv = lock@;
        assert(self.systems@[i as int].1.wf());
        let mut entry = self.systems.remove(i);
        let ghost inner_before = entry.1@;
        entry.1.insert(name, lock);
        let ghost inner_after = entry.1@;
        assert(entry.1.wf());
        self.systems.insert(i, entry);
        assert(self@ =~= mid.update(i as int, (s, inner_after)));
        assert forall|t: System, n: Seq<char>| #[trigger]
            lock_of(self@, t, n) == if t == s && n == nv {
                Some(lv)
            } else {
                lock_of(orig, t, n)
            } by {
            lemma_lookup_update(mid, i as int, inner_after, t);
            if t == s {
                assert(lookup(inner_after, n) == if n == nv {
                    Some(lv)
                } else {
                    lookup(inner_before, n)
                });
                assert(lock_of(mid, s, n) == lock_of(orig, s, n));
            } else {
                assert(lookup(mid, t) == lookup(orig, t));
            }
        }
        assert forall|t: System| #[trigger] has_key(self@, t) <==> has_key(orig, t) || t == s by {
            if has_key(orig, t) && !has_key(self@, t) {
                let k = choose|k: int| 0 <= k < orig.len() && orig[k].0 == t;
                if t != s {
                    lemma_lookup_at(orig, k);
                    lemma_lookup_absent(self@, t);
                    lemma_lookup_update(mid, i as int, inner_after, t);
                }
            }
            if has_key(self@, t) && !has_key(orig, t) && t != s {
                let k = choose|k: int| 0 <= k < self@.len() && self@[k].0 == t;
                lemma_lookup_at(self@, k);
                lemma_lookup_update(mid, i as int, inner_after, t);
                lemma_lookup_absent(orig, t);
            }
            if t == s {
                assert(self@[i as int].0 == s);
            }
        }
        assert forall|a: int| 0 <= a < self.systems@.len() implies (#[trigger] self.systems@[a]).1.wf() by {
            if a != i {
                assert(self.systems@[a] == old(self).systems@[a] || true);
            }
        }
    }

    /// The output paths of every package locked for platform `s`.
    pub fn collect_outputs(&self, s: System) -> (r: Vec<StorePath>)
        requires
            self.wf(),
        ensures
            names(r@) == match lookup(self@, s) {
                Some(pkgs) => flat_outputs(pkgs),
                None => seq![],
            },
    {
        let mut r: Vec<StorePath> = Vec::new();
        match self.system(s) {
            None => {
                assert(names(r@) =~= Seq::<Seq<char>>::empty());
            },
            Some(pkgs) => {
                let mut i: usize = 0;
                while i < pkgs.inner.len()
                    invariant
                        i <= pkgs@.len(),
                        names(r@) == flat_outputs(pkgs@.subrange(0, i as int)),
                    decreases pkgs.inner.len() - i,
                {
                    let outs = &pkgs.inner[i].1.outputs;
                    let ghost before = names(r@);
                    let mut k: usize = 0;
                    while k < outs.len()
                        invariant
                            k <= outs@.len(),
                            names(r@) == before + output_view(outs@).subrange(0, k as int).map_values(
                                |o: (Seq<char>, Seq<char>)| o.1,
                            ),
                        decreases outs.len() - k,
                    {
                        let ghost prev = names(r@);
                        r.push(outs[k].1.clone());
                        assert(names(r@) =~= prev.push(outs@[k as int].1@));
                        assert(output_view(outs@).subrange(0, k + 1).map_values(
                            |o: (Seq<char>, Seq<char>)| o.1,
                        ) =~= output_view(outs@).subrange(0, k as int).map_values(
                            |o: (Seq<char>, Seq<char>)| o.1,
                        ).push(outs@[k as int].1@));
                        k += 1;
                    }
                    assert(output_view(outs@).subrange(0, k as int) =~= output_view(outs@));
                    assert(pkgs@.subrange(0, i + 1).drop_last() =~= pkgs@.subrange(0, i as int));
                    assert(pkgs@.subrange(0, i + 1).last() == pkgs@[i as int]);
                    i += 1;
                }
                assert(pkgs@.subrange(0, i as int) =~= pkgs@);
            },
        }
        r
    }
}

/// Whether `pat` occurs in `s` at position `i`.
pub open spec fn occurs_at(s: Seq<char>, pat: Seq<char>, i: int) -> bool {
    0 <= i && i + pat.len() <= s.len() && s.subrange(i, i + pat.len()) == pat
}

/// Whether `pat` occurs in `cs` at position `i`.
fn matches_at(cs: &Vec<char>, pat: &Vec<char>, i: usize) -> (r: bool)
    requires
        i <= cs@.len(),
    ensures
        r == occurs_at(cs@, pat@, i as int),
{
    if pat.len() > cs.len() - i {
        return false;
    }
    let mut k: usize = 0;
    while k < pat.len()
        invariant
            i + pat@.len() <= cs@.len(),
            cs@.len() == cs.len(),
            k <= pat@.len(),
            forall|m: int| 0 <= m < k ==> cs@[i + m] == pat@[m],
        decreases pat.len() - k,
    {
        if cs[i + k] != pat[k] {
            assert(cs@.subrange(i as int, i + pat@.len())[k as int] != pat@[k as int]);
            return false;
        }
        k += 1;
    }
    assert(cs@.subrange(i as int, i + pat@.len()) =~= pat@);
    true
}

/// A parser's message without its last `" at line ..."` part, which a diagnostic
/// shows as a location instead.
pub fn error_summary(message: &str) -> (r: String)
    ensures
        forall|i: int| #![trigger occurs_at(message@, " at line "@, i)]
            occurs_at(message@, " at line "@, i) ==> r@.len() >= i,
        (exists|i: int| occurs_at(message@, " at line "@, i)) ==> occurs_at(message@, " at line "@, r@.len() as int)
            && r@ == message@.subrange(0, r@.len() as int),
        !(exists|i: int| occurs_at(message@, " at line "@, i)) ==> r@ == message@,
{
    let cs = crate::text::chars_of(message);
    let pat = crate::text::chars_of(" at line ");
    proof {
        reveal_strlit(" at line ");
    }
    assert(pat@.len() == 9);
    let mut i: usize = cs.len();
    while i > 0
        invariant
            cs@ == message@,
            pat@ == " at line "@,
            pat@.len() == 9,
            i <= cs@.len(),
            forall|j: int| #![trigger occurs_at(message@, " at line "@, j)]
                i <= j && occurs_at(message@, " at line "@, j) ==> false,
        decreases i,
    {
        i -= 1;
        if matches_at(&cs, &pat, i) {
            return crate::text::string_of(&cs, 0, i);
        }
    }
    assert(cs@.subrange(0, cs@.len() as int) =~= cs@);
    crate::text::string_of(&cs, 0, cs.len())
}

/// Why a lockfile's plain content was refused.
#[derive(Debug)]
pub enum LockfileError {
    /// A version other than 0.
    UnsupportedVersion(u64),
    /// A key that names no supported platform.
    UnsupportedSystem(String),
    /// A digest that is not the base64 of 32 bytes.
    InvalidHash(String),
    /// An output path that is not a store-path name.
    InvalidPath(String),
}

/// A package entry as read from disk: name, digest text, `(output, path name)` pairs.
pub type PlainPackage = (String, String, Vec<(String, String)>);

/// A package entry whose digest and paths are valid.
pub open spec fn plain_package_ok(p: PlainPackage) -> bool {
    &&& crate::package::base64_decoded(p.1@) matches Some(b) && b.len() == 32
    &&& forall|o: int| 0 <= o < p.2@.len() ==> crate::store_path::is_store_path_name(#[trigger] p.2@[o].1@)
}

/// Lockfile content whose platform keys, digests and paths are all valid.
pub open spec fn plain_ok(systems: Seq<(String, Vec<PlainPackage>)>) -> bool {
    forall|i: int|
        0 <= i < systems.len() ==> crate::system::system_of((#[trigger] systems[i]).0@) is Some && forall|j: int|
            0 <= j < systems[i].1@.len() ==> plain_package_ok(#[trigger] systems[i].1@[j])
}

impl Lockfile {
    /// Builds a lockfile from its content as read from disk: version 0, and per
    /// platform name the package entries. Later entries of one name replace earlier ones.
    pub fn from_plain(version: u64, systems: Vec<(String, Vec<PlainPackage>)>) -> (r: Result<
        Lockfile,
        LockfileError,
    >)
        ensures
            version != 0 ==> (r matches Err(LockfileError::UnsupportedVersion(v)) && v == version),
            r is Ok <==> version == 0 && plain_ok(systems@),
            r matches Ok(l) ==> l.wf(),
    {
        if version != 0 {
            return Err(LockfileError::UnsupportedVersion(version));
        }
        let mut l = Lockfile::new();
        let mut i: usize = 0;
        while i < systems.len()
            invariant
                version == 0,
                l.wf(),
                i <= systems@.len(),
                forall|a: int|
                    0 <= a < i ==> crate::system::system_of((#[trigger] systems@[a]).0@) is Some && forall|j: int|
                        0 <= j < systems@[a].1@.len() ==> plain_package_ok(#[trigger] systems@[a].1@[j]),
            decreases systems.len() - i,
        {
            let sys = match crate::system::System::from_str(systems[i].0.as_str()) {
                Ok(s) => s,
                Err(_) => {
                    return Err(LockfileError::UnsupportedSystem(systems[i].0.clone()));
                },
            };
            l.add_system(sys);
            let pkgs = &systems[i].1;
            let mut j: usize = 0;
            while j < pkgs.len()
                invariant
                    version == 0,
                    l.wf(),
                    i < systems@.len(),
                    pkgs@ == systems@[i as int].1@,
                    j <= pkgs@.len(),
                    forall|b: int| 0 <= b < j ==> plain_package_ok(#[trigger] pkgs@[b]),
                    forall|a: int|
                        0 <= a < i ==> crate::system::system_of((#[trigger] systems@[a]).0@) is Some
                            && forall|jj: int|
                            0 <= jj < systems@[a].1@.len() ==> plain_package_ok(#[trigger] systems@[a].1@[jj]),
                decreases pkgs.len() - j,
            {
                let entry = &pkgs[j];
                let hash = match crate::package::Base64Hash::from_str(entry.1.as_str()) {
                    Ok(h) => h,
                    Err(_) => {
                        return Err(LockfileError::InvalidHash(entry.1.clone()));
                    },
                };
                let mut outputs: Vec<(String, StorePath)> = Vec::new();
                let mut o: usize = 0;
                while o < entry.2.len()
                    invariant
                        version == 0,
                        i < systems@.len(),
                        pkgs@ == systems@[i as int].1@,
                        j < pkgs@.len(),
                        *entry == pkgs@[j as int],
                        o <= entry.2@.len(),
                        forall|c: int|
                            0 <= c < o ==> crate::store_path::is_store_path_name(#[trigger] entry.2@[c].1@),
                    decreases entry.2.len() - o,
                {
                    match StorePath::from_storeless(entry.2[o].1.clone()) {
                        Ok(p) => {
                            outputs.push((entry.2[o].0.clone(), p));
                        },
                        Err(_) => {
                            return Err(LockfileError::InvalidPath(entry.2[o].1.clone()));
                        },
                    }
                    o += 1;
                }
                l.insert(sys, entry.0.clone(), PackageLock { hash, outputs });
                j += 1;
            }
            i += 1;
        }
        Ok(l)
    }
}

} // verus!
