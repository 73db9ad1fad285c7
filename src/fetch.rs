//! Decisions of the closure fetcher: which discovered paths to start, and what each
//! path's task does next.
use vstd::prelude::*;

use crate::narinfo::{Narinfo, NarinfoError};
use crate::store_path::StorePath;
use crate::text::push_str;

verus! {

/// The names of a sequence of store paths.
pub open spec fn names(ps: Seq<StorePath>) -> Seq<Seq<char>> {
    ps.map_values(|p: StorePath| p@)
}

/// The paths of `batch` to start, given the set `seen` of paths already started:
/// each path not seen before, once, in the order of the batch.
pub open spec fn fresh(seen: Set<Seq<char>>, batch: Seq<Seq<char>>) -> Seq<Seq<char>>
    decreases batch.len(),
{
    if batch.len() == 0 {
        seq![]
    } else if seen.contains(batch[0]) {
        fresh(seen, batch.drop_first())
    } else {
        seq![batch[0]] + fresh(seen.insert(batch[0]), batch.drop_first())
    }
}

/// The paths started over a run of batches, from the set `seen`.
pub open spec fn started(seen: Set<Seq<char>>, batches: Seq<Seq<Seq<char>>>) -> Seq<Seq<char>>
    decreases batches.len(),
{
    if batches.len() == 0 {
        seq![]
    } else {
        fresh(seen, batches[0]) + started(
            seen + batches[0].to_set(),
            batches.drop_first(),
        )
    }
}

/// The deduplication gate of the fetcher: the set of paths it has started.
pub struct ClosureFetch {
    downloaded: Vec<StorePath>,
}

impl ClosureFetch {
    /// The paths started so far.
    pub closed spec fn seen(&self) -> Set<Seq<char>> {
        names(self.downloaded@).to_set()
    }

    /// Nothing started yet.
    pub fn new() -> (r: ClosureFetch)
        ensures
            r.seen() == Set::<Seq<char>>::empty(),
    {
        let r = ClosureFetch { downloaded: Vec::new() };
        assert(names(r.downloaded@).to_set() =~= Set::<Seq<char>>::empty());
        r
    }

    /// The paths started.
    pub fn into_paths(self) -> (r: Vec<StorePath>)
        ensures
            names(r@).to_set() == self.seen(),
    {
        self.downloaded
    }

    /// Whether `p` has been started.
    pub fn contains(&self, p: &StorePath) -> (r: bool)
        ensures
            r == self.seen().contains(p@),
    {
        let mut i: usize = 0;
        while i < self.downloaded.len()
            invariant
                i <= self.downloaded@.len(),
                forall|j: int| 0 <= j < i ==> (#[trigger] self.downloaded@[j])@ != p@,
            decreases self.downloaded.len() - i,
        {
            if self.downloaded[i] == *p {
                assert(names(self.downloaded@)[i as int] == p@);
                return true;
            }
            i += 1;
        }
        assert(!names(self.downloaded@).contains(p@));
        false
    }

    /// Marks the paths of `batch` and returns those to start: each path of the batch
    /// that was not started before, once, in batch order.
    pub fn schedule(&mut self, batch: Vec<StorePath>) -> (r: Vec<StorePath>)
        ensures
            names(r@) == fresh(old(self).seen(), names(batch@)),
            final(self).seen() == old(self).seen() + names(batch@).to_set(),
    {
        let ghost seen0 = self.seen();
        let ghost b = names(batch@);
        let mut r: Vec<StorePath> = Vec::new();
        let mut i: usize = 0;
        assert(b.subrange(0, b.len() as int) =~= b);
        assert(names(r@) + fresh(self.seen(), b) =~= fresh(self.seen(), b));
        assert(b.subrange(0, 0).to_set() =~= Set::<Seq<char>>::empty());
        assert(self.seen() + Set::<Seq<char>>::empty() =~= self.seen());
        while i < batch.len()
            invariant
                b == names(batch@),
                i <= batch@.len(),
                names(r@) + fresh(self.seen(), b.subrange(i as int, b.len() as int)) == fresh(
                    seen0,
                    b,
                ),
                self.seen() == seen0 + b.subrange(0, i as int).to_set(),
            decreases batch.len() - i,
        {
            let p = &batch[i];
            let ghost rest = b.subrange(i as int, b.len() as int);
            assert(rest[0] == p@);
            assert(rest.drop_first() =~= b.subrange(i + 1, b.len() as int));
            assert(b.subrange(0, i + 1).to_set() =~= b.subrange(0, i as int).to_set().insert(p@))
                by {
                assert(b.subrange(0, i + 1) =~= b.subrange(0, i as int).push(p@));
                b.subrange(0, i as int).lemma_push_to_set_commute(p@);
            }
            if !self.contains(p) {
                let ghost before_r = names(r@);
                let ghost before_d = names(self.downloaded@);
                r.push(p.clone());
                self.downloaded.push(p.clone());
                assert(names(r@) =~= before_r.push(p@));
                assert(names(self.downloaded@) =~= before_d.push(p@));
                proof {
                    before_d.lemma_push_to_set_commute(p@);
                }
                assert(before_r.push(p@) + fresh(self.seen(), rest.drop_first()) =~= before_r + (
                seq![p@] + fresh(self.seen(), rest.drop_first())));
            } else {
                assert(self.seen().insert(p@) =~= self.seen());
            }
            i += 1;
        }
        assert(b.subrange(i as int, b.len() as int) =~= Seq::<Seq<char>>::empty());
        assert(b.subrange(0, i as int) =~= b);
        assert(names(r@) + seq![] =~= names(r@));
        r
    }
}

/// Copies a list of store paths.
pub fn clone_paths(v: &Vec<StorePath>) -> (r: Vec<StorePath>)
    ensures
        names(r@) == names(v@),
{
    let mut r: Vec<StorePath> = Vec::new();
    let mut i: usize = 0;
    while i < v.len()
        invariant
            i <= v@.len(),
            names(r@) == names(v@.subrange(0, i as int)),
        decreases v.len() - i,
    {
        let ghost before = names(r@);
        r.push(v[i].clone());
        assert(names(r@) =~= before.push(v@[i as int]@));
        assert(names(v@.subrange(0, i + 1)) =~= names(v@.subrange(0, i as int)).push(v@[i as int]@));
        i += 1;
    }
    assert(v@.subrange(0, i as int) =~= v@);
    r
}

/// Paths that `fresh` returns are new, distinct, and drawn from the batch.
pub proof fn lemma_fresh_is_new(seen: Set<Seq<char>>, batch: Seq<Seq<char>>)
    ensures
        fresh(seen, batch).no_duplicates(),
        forall|p| fresh(seen, batch).contains(p) ==> !seen.contains(p) && batch.contains(p),
        forall|p| #[trigger] batch.contains(p) && !seen.contains(p) ==> fresh(seen, batch).contains(p),
    decreases batch.len(),
{
    if batch.len() > 0 {
        let rest = batch.drop_first();
        if seen.contains(batch[0]) {
            lemma_fresh_is_new(seen, rest);
            assert(fresh(seen, batch) == fresh(seen, rest));
            assert forall|p| #[trigger] batch.contains(p) && !seen.contains(p) implies fresh(seen, batch).contains(p) by {
                let k = choose|k: int| 0 <= k < batch.len() && batch[k] == p;
                assert(k != 0);
                assert(rest[k - 1] == p);
                assert(rest.contains(p));
            }
            assert forall|p| fresh(seen, batch).contains(p) implies !seen.contains(p) && batch.contains(p) by {
                assert(fresh(seen, rest).contains(p));
                assert(rest.contains(p));
                let k = choose|k: int| 0 <= k < rest.len() && rest[k] == p;
                assert(batch[k + 1] == p);
            }
        } else {
            let s2 = seen.insert(batch[0]);
            lemma_fresh_is_new(s2, rest);
            let f = fresh(seen, batch);
            let tail = fresh(s2, rest);
            assert(f == seq![batch[0]] + tail);
            assert forall|i: int, j: int| 0 <= i < j < f.len() implies f[i] != f[j] by {
                if i == 0 {
                    assert(tail[j - 1] == f[j]);
                    assert(fresh(s2, rest).contains(f[j]));
                    assert(!s2.contains(f[j]));
                } else {
                    assert(f[i] == tail[i - 1] && f[j] == tail[j - 1]);
                }
            }
            assert forall|p| f.contains(p) implies !seen.contains(p) && batch.contains(p) by {
                let k = choose|k: int| 0 <= k < f.len() && f[k] == p;
                if k == 0 {
                    assert(batch[0] == p);
                } else {
                    assert(tail[k - 1] == p);
                    assert(fresh(s2, rest).contains(p));
                    assert(rest.contains(p));
                    assert(!s2.contains(p));
                    let m = choose|m: int| 0 <= m < rest.len() && rest[m] == p;
                    assert(batch[m + 1] == p);
                }
            }
            assert forall|p| #[trigger] batch.contains(p) && !seen.contains(p) implies f.contains(p) by {
                if p == batch[0] {
                    assert(f[0] == p);
                } else {
                    let k = choose|k: int| 0 <= k < batch.len() && batch[k] == p;
                    assert(k != 0);
                    assert(rest[k - 1] == p);
                    assert(rest.contains(p));
                    let m = choose|m: int| 0 <= m < tail.len() && tail[m] == p;
                    assert(f[m + 1] == p);
                }
            }
        }
    }
}

/// Over any run of batches, each path is started at most once, and only a path that
/// was not seen before; a path discovered again (a diamond in the reference graph)
/// costs no second task.
pub proof fn lemma_each_path_started_once(seen: Set<Seq<char>>, batches: Seq<Seq<Seq<char>>>)
    ensures
        started(seen, batches).no_duplicates(),
        forall|p| started(seen, batches).contains(p) ==> !seen.contains(p),
    decreases batches.len(),
{
    if batches.len() > 0 {
        let b = batches[0];
        let s2 = seen + b.to_set();
        lemma_fresh_is_new(seen, b);
        lemma_each_path_started_once(s2, batches.drop_first());
        let f = fresh(seen, b);
        let t = started(s2, batches.drop_first());
        let all = f + t;
        assert(started(seen, batches) == all);
        assert forall|p| all.contains(p) implies !seen.contains(p) by {
            let k = choose|k: int| 0 <= k < all.len() && all[k] == p;
            if k < f.len() {
                assert(f.contains(p));
            } else {
                assert(t[k - f.len()] == p);
                assert(t.contains(p));
                assert(!s2.contains(p));
            }
        }
        assert forall|i: int, j: int| 0 <= i < j < all.len() implies all[i] != all[j] by {
            if j < f.len() {
                assert(f[i] == all[i] && f[j] == all[j]);
            } else if i >= f.len() {
                assert(t[i - f.len()] == all[i] && t[j - f.len()] == all[j]);
            } else {
                assert(f.contains(all[i]));
                assert(b.contains(all[i]));
                assert(t[j - f.len()] == all[j]);
                assert(t.contains(all[j]));
                assert(!s2.contains(all[j]));
            }
        }
    }
}

/// A binary cache's answer to a narinfo request.
#[derive(Debug)]
pub enum CacheReply {
    /// The cache does not have the path (HTTP 404).
    NotFound,
    /// The request failed (a server error or a transport failure).
    Failed,
    /// The narinfo document.
    Found(String),
}

/// Why fetching a path failed.
#[derive(Debug)]
pub enum FetchError {
    /// No cache has the path.
    NotInAnyCache(String),
    /// A cache served a narinfo document that does not parse.
    Narinfo(NarinfoError),
}

impl FetchError {
    /// A human-readable description.
    pub fn message(&self) -> (r: String)
        ensures
            self matches FetchError::NotInAnyCache(p) ==> r@ == p@ + " could not be found in any cache"@,
    {
        match self {
            FetchError::NotInAnyCache(p) => {
                let mut m = p.clone();
                push_str(&mut m, " could not be found in any cache");
                m
            },
            FetchError::Narinfo(e) => e.message(),
        }
    }
}

/// Where a path's task stands.
#[derive(Debug, Clone, Copy, PartialEq, Eq, Structural)]
pub enum TaskPhase {
    /// Waiting to learn whether the path is in the local store.
    CheckingStore,
    /// Waiting for the references cached beside the local store.
    ReadingReferences,
    /// Waiting for the reply of the cache with this index.
    Querying(usize),
    /// Waiting for the archive to be stored and unpacked.
    Downloading,
    /// Done, or failed.
    Finished,
}

/// What the task needs done next.
#[derive(Debug)]
pub enum TaskAction {
    /// Check whether `store/<path>` exists.
    CheckStore,
    /// Read the references cached for the path's hash.
    ReadReferences,
    /// The subtree is present: send these references to the fetcher; the task is done.
    Publish(Vec<StorePath>),
    /// Request `<cache>/<hash>.narinfo` of the cache with this index; when `first`,
    /// count the path in the progress length beforehand.
    Query { cache: usize, first: bool },
    /// Send the narinfo's references to the fetcher, then, both at once, cache them
    /// beside the store and download and unpack `<cache>/<url>`.
    Download { cache: usize, narinfo: Narinfo },
    /// The path is in the store: count it as completed; the task is done.
    Complete,
    /// The task failed; the whole fetch stops with this error.
    Fail(FetchError),
    /// The event does not belong to this phase; nothing changed.
    Unexpected,
}

/// What the outside world reports back to a task.
#[derive(Debug)]
pub enum TaskEvent {
    /// Whether `store/<path>` exists.
    Stored(bool),
    /// The references cached for the path, if a cache file exists.
    References(Option<Vec<StorePath>>),
    /// The reply of the cache that was last asked.
    Reply(CacheReply),
    /// The references were cached and the archive unpacked.
    Downloaded,
}

/// The work for one store path: skip the network when the subtree is already
/// present, else query the caches in order, then download.
#[derive(Debug)]
pub struct PathTask {
    pub path: StorePath,
    pub caches: usize,
    pub phase: TaskPhase,
}

/// The error for a path that no cache has.
pub open spec fn is_not_found_error(a: TaskAction, p: StorePath) -> bool {
    a matches TaskAction::Fail(FetchError::NotInAnyCache(m)) && m@ == p@
}

/// The first query, or failure when there is no cache to ask.
pub open spec fn query_started(caches: usize, path: StorePath, phase: TaskPhase, a: TaskAction) -> bool {
    if caches == 0 {
        phase == TaskPhase::Finished && is_not_found_error(a, path)
    } else {
        phase == TaskPhase::Querying(0) && a == (TaskAction::Query { cache: 0, first: true })
    }
}

/// One transition of a task for `path` with `caches` caches: from phase `p` on
/// `event` to phase `q`, asking for `a`.
pub open spec fn stepped(
    p: TaskPhase,
    caches: usize,
    path: StorePath,
    event: TaskEvent,
    q: TaskPhase,
    a: TaskAction,
) -> bool {
    match (p, event) {
        (TaskPhase::CheckingStore, TaskEvent::Stored(true)) => q == TaskPhase::ReadingReferences
            && a == TaskAction::ReadReferences,
        (TaskPhase::CheckingStore, TaskEvent::Stored(false)) => query_started(caches, path, q, a),
        (TaskPhase::ReadingReferences, TaskEvent::References(None)) => query_started(
            caches,
            path,
            q,
            a,
        ),
        (TaskPhase::ReadingReferences, TaskEvent::References(Some(refs))) => q
            == TaskPhase::Finished && a == TaskAction::Publish(refs),
        (TaskPhase::Querying(i), TaskEvent::Reply(CacheReply::Found(text))) => match a {
            TaskAction::Download { cache, narinfo } => cache == i && q == TaskPhase::Downloading
                && Narinfo::parse_ok(text@, narinfo),
            TaskAction::Fail(FetchError::Narinfo(e)) => q == TaskPhase::Finished
                && Narinfo::parse_err(text@, e),
            _ => false,
        },
        (TaskPhase::Querying(i), TaskEvent::Reply(_)) => if i + 1 < caches {
            q == TaskPhase::Querying((i + 1) as usize) && a == (TaskAction::Query {
                cache: (i + 1) as usize,
                first: false,
            })
        } else {
            q == TaskPhase::Finished && is_not_found_error(a, path)
        },
        (TaskPhase::Downloading, TaskEvent::Downloaded) => q == TaskPhase::Finished && a
            == TaskAction::Complete,
        _ => q == p && a == TaskAction::Unexpected,
    }
}

/// A path that is already in the local store, with its references cached, is done
/// in two steps that touch no cache: its references are read and published.
pub proof fn lemma_warm_path_needs_no_network(
    caches: usize,
    path: StorePath,
    refs: Vec<StorePath>,
    q1: TaskPhase,
    a1: TaskAction,
    q2: TaskPhase,
    a2: TaskAction,
)
    requires
        stepped(TaskPhase::CheckingStore, caches, path, TaskEvent::Stored(true), q1, a1),
        stepped(q1, caches, path, TaskEvent::References(Some(refs)), q2, a2),
    ensures
        a1 == TaskAction::ReadReferences,
        a2 == TaskAction::Publish(refs),
        q2 == TaskPhase::Finished,
{
}

/// Caches are asked in list order: when cache `i` has not the path (not found, or a
/// failed request), cache `i + 1` is asked next, and when the last one has not it
/// either, the path is reported as found in no cache.
pub proof fn lemma_caches_asked_in_order(
    caches: usize,
    path: StorePath,
    i: usize,
    reply: CacheReply,
    q: TaskPhase,
    a: TaskAction,
)
    requires
        i < caches,
        reply is NotFound || reply is Failed,
        stepped(TaskPhase::Querying(i), caches, path, TaskEvent::Reply(reply), q, a),
    ensures
        i + 1 < caches ==> q == TaskPhase::Querying((i + 1) as usize) && a == (TaskAction::Query {
            cache: (i + 1) as usize,
            first: false,
        }),
        i + 1 == caches ==> q == TaskPhase::Finished && is_not_found_error(a, path),
{
}

impl PathTask {
    /// A task for `path` with `caches` caches to ask; its first action is `CheckStore`.
    pub fn new(path: StorePath, caches: usize) -> (r: PathTask)
        ensures
            r.path == path,
            r.caches == caches,
            r.phase == TaskPhase::CheckingStore,
    {
        PathTask { path, caches, phase: TaskPhase::CheckingStore }
    }

    fn first_query(&mut self) -> (a: TaskAction)
        ensures
            final(self).path == old(self).path,
            final(self).caches == old(self).caches,
            query_started(old(self).caches, old(self).path, final(self).phase, a),
    {
        if self.caches == 0 {
            self.phase = TaskPhase::Finished;
            TaskAction::Fail(FetchError::NotInAnyCache(self.path.to_string()))
        } else {
            self.phase = TaskPhase::Querying(0);
            TaskAction::Query { cache: 0, first: true }
        }
    }

    /// Advances the task by one event.
    pub fn step(&mut self, event: TaskEvent) -> (a: TaskAction)
        ensures
            final(self).path == old(self).path,
            final(self).caches == old(self).caches,
            stepped(old(self).phase, old(self).caches, old(self).path, event, final(self).phase, a),
    {
        match (self.phase, event) {
            (TaskPhase::CheckingStore, TaskEvent::Stored(true)) => {
                self.phase = TaskPhase::ReadingReferences;
                TaskAction::ReadReferences
            },
            (TaskPhase::CheckingStore, TaskEvent::Stored(false)) => self.first_query(),
            (TaskPhase::ReadingReferences, TaskEvent::References(None)) => self.first_query(),
            (TaskPhase::ReadingReferences, TaskEvent::References(Some(refs))) => {
                self.phase = TaskPhase::Finished;
                TaskAction::Publish(refs)
            },
            (TaskPhase::Querying(i), TaskEvent::Reply(CacheReply::Found(text))) => {
                match Narinfo::parse(text.as_str()) {
                    Ok(narinfo) => {
                        self.phase = TaskPhase::Downloading;
                        TaskAction::Download { cache: i, narinfo }
                    },
                    Err(e) => {
                        self.phase = TaskPhase::Finished;
                        TaskAction::Fail(FetchError::Narinfo(e))
                    },
                }
            },
            (TaskPhase::Querying(i), TaskEvent::Reply(_)) => {
                if i < self.caches && i + 1 < self.caches {
                    self.phase = TaskPhase::Querying(i + 1);
                    TaskAction::Query { cache: i + 1, first: false }
                } else {
                    self.phase = TaskPhase::Finished;
                    TaskAction::Fail(FetchError::NotInAnyCache(self.path.to_string()))
                }
            },
            (TaskPhase::Downloading, TaskEvent::Downloaded) => {
                self.phase = TaskPhase::Finished;
                TaskAction::Complete
            },
            _ => TaskAction::Unexpected,
        }
    }
}

} // verus!
