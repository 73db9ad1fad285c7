use unnix::fetch::{CacheReply, ClosureFetch, FetchError, PathTask, TaskAction, TaskEvent, TaskPhase};
use unnix::narinfo::Compression;
use unnix::store_path::StorePath;

fn path(s: &str) -> StorePath {
    StorePath::from_storeless(s.to_string()).unwrap()
}

const P: &str = "hwz2l7ihv2skq7gr5l3paavs3rr9il7z-hello-2.12.1";
const Q: &str = "5m9amsvvh2z8sl7jrnc87hzy21glw6k1-glibc-2.40-66";

fn names(v: &[StorePath]) -> Vec<String> {
    v.iter().map(|p| p.as_str().to_string()).collect()
}

#[test]
fn dedup_starts_each_path_once() {
    let mut f = ClosureFetch::new();
    let first = f.schedule(vec![path(P), path(Q), path(P)]);
    assert_eq!(names(&first), vec![P, Q]);
    let second = f.schedule(vec![path(Q), path(Q), path(P)]);
    assert!(second.is_empty());
    assert!(f.contains(&path(Q)));
}

#[test]
fn fetcher_short_circuit() {
    let mut f = ClosureFetch::new();
    let start = f.schedule(vec![path(P)]);
    assert_eq!(names(&start), vec![P]);

    let mut task = PathTask::new(path(P), 2);
    assert!(matches!(task.step(TaskEvent::Stored(true)), TaskAction::ReadReferences));
    match task.step(TaskEvent::References(Some(vec![path(Q)]))) {
        TaskAction::Publish(refs) => {
            let next = f.schedule(refs);
            assert_eq!(names(&next), vec![Q]);
        },
        other => panic!("unexpected {other:?}"),
    }
    assert_eq!(task.phase, TaskPhase::Finished);

    let mut child = PathTask::new(path(Q), 2);
    assert!(matches!(child.step(TaskEvent::Stored(true)), TaskAction::ReadReferences));
    match child.step(TaskEvent::References(Some(vec![]))) {
        TaskAction::Publish(refs) => assert!(f.schedule(refs).is_empty()),
        other => panic!("unexpected {other:?}"),
    }
}

#[test]
fn warm_store_needs_no_download() {
    for stored in [path(P), path(Q)] {
        let mut task = PathTask::new(stored, 3);
        let first = task.step(TaskEvent::Stored(true));
        assert!(matches!(first, TaskAction::ReadReferences));
        let second = task.step(TaskEvent::References(Some(vec![])));
        assert!(matches!(second, TaskAction::Publish(_)));
        assert!(matches!(task.step(TaskEvent::Downloaded), TaskAction::Unexpected));
    }
}

#[test]
fn caches_are_tried_in_order() {
    let mut task = PathTask::new(path(P), 3);
    assert!(matches!(
        task.step(TaskEvent::Stored(false)),
        TaskAction::Query { cache: 0, first: true }
    ));
    assert!(matches!(
        task.step(TaskEvent::Reply(CacheReply::NotFound)),
        TaskAction::Query { cache: 1, first: false }
    ));
    assert!(matches!(
        task.step(TaskEvent::Reply(CacheReply::Failed)),
        TaskAction::Query { cache: 2, first: false }
    ));
    match task.step(TaskEvent::Reply(CacheReply::NotFound)) {
        TaskAction::Fail(e) => {
            assert!(matches!(e, FetchError::NotInAnyCache(_)));
            assert_eq!(e.message(), format!("{P} could not be found in any cache"));
        },
        other => panic!("unexpected {other:?}"),
    }
}

#[test]
fn found_narinfo_leads_to_download() {
    let mut task = PathTask::new(path(P), 2);
    task.step(TaskEvent::Stored(true));
    assert!(matches!(task.step(TaskEvent::References(None)), TaskAction::Query { cache: 0, first: true }));
    task.step(TaskEvent::Reply(CacheReply::NotFound));
    let text = format!("URL: nar/a.nar.zst\nCompression: zstd\nReferences: {Q}\n");
    match task.step(TaskEvent::Reply(CacheReply::Found(text))) {
        TaskAction::Download { cache, narinfo } => {
            assert_eq!(cache, 1);
            assert_eq!(narinfo.url, "nar/a.nar.zst");
            assert_eq!(narinfo.compression, Compression::Zstd);
            assert_eq!(names(&narinfo.references), vec![Q]);
        },
        other => panic!("unexpected {other:?}"),
    }
    assert!(matches!(task.step(TaskEvent::Downloaded), TaskAction::Complete));
    assert_eq!(task.phase, TaskPhase::Finished);
}

#[test]
fn bad_narinfo_fails_the_task() {
    let mut task = PathTask::new(path(P), 2);
    task.step(TaskEvent::Stored(false));
    match task.step(TaskEvent::Reply(CacheReply::Found("URL: x\n".to_string()))) {
        TaskAction::Fail(FetchError::Narinfo(e)) => {
            assert_eq!(e.message(), "not all required fields found")
        },
        other => panic!("unexpected {other:?}"),
    }
}

#[test]
fn no_caches_fails_at_once() {
    let mut task = PathTask::new(path(P), 0);
    assert!(matches!(task.step(TaskEvent::Stored(false)), TaskAction::Fail(FetchError::NotInAnyCache(_))));
}
