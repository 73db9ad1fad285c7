use unnix::lockfile::{error_summary, Lockfile, PackageLock, SystemLockfile};
use unnix::package::{Base64Hash, Jobset, Package, Source};
use unnix::state::{FetchJob, Manifest, State, SystemManifest};
use unnix::store_path::StorePath;
use unnix::system::System;

const HELLO: &str = "hwz2l7ihv2skq7gr5l3paavs3rr9il7z-hello-2.12.1";
const GLIBC: &str = "5m9amsvvh2z8sl7jrnc87hzy21glw6k1-glibc-2.40-66";

fn package(attribute: &str, outputs: &[&str]) -> Package {
    Package {
        attribute: attribute.to_string(),
        outputs: outputs.iter().map(|o| o.to_string()).collect(),
        source: Source::default_source(),
    }
}

fn x86_linux() -> System {
    System::from_str("x86_64-linux").unwrap()
}

fn manifest(pkgs: Vec<(&str, Package)>) -> Manifest {
    Manifest {
        systems: vec![(
            x86_linux(),
            SystemManifest {
                packages: pkgs.into_iter().map(|(n, p)| (n.to_string(), p)).collect(),
                caches: vec!["https://cache.nixos.org".to_string()],
                env: vec![],
            },
        )],
    }
}

fn hello_lock(hash: Base64Hash) -> PackageLock {
    PackageLock {
        hash,
        outputs: vec![(
            "out".to_string(),
            StorePath::from_storeless(HELLO.to_string()).unwrap(),
        )],
    }
}

#[test]
fn lock_reuse() {
    let hash = package("hello", &[]).hash();
    let mut prior = Lockfile::new();
    prior.insert(x86_linux(), "hello".to_string(), hello_lock(hash.clone()));

    let mut state = State::new(manifest(vec![("hello", package("hello", &[]))]), x86_linux());
    let jobs = state.lock(&prior);
    assert!(jobs.is_empty());
    let kept = state.lockfile.system(x86_linux()).unwrap().get("hello").unwrap();
    assert!(kept.hash.same(&hash));
    assert_eq!(kept.outputs.len(), 1);
    assert_eq!(kept.outputs[0].0, "out");
    assert_eq!(kept.outputs[0].1.as_str(), HELLO);
}

#[test]
fn changed_package_is_fetched() {
    let stale = package("hello", &["out"]).hash();
    let mut prior = Lockfile::new();
    prior.insert(x86_linux(), "hello".to_string(), hello_lock(stale));

    let mut state = State::new(
        manifest(vec![("hello", package("hello", &[])), ("glibc", package("glibc", &["out"]))]),
        x86_linux(),
    );
    let jobs: Vec<FetchJob> = state.lock(&prior);
    let names: Vec<&str> = jobs.iter().map(|j| j.name.as_str()).collect();
    assert_eq!(names, vec!["hello", "glibc"]);
    assert!(state.lockfile.system(x86_linux()).unwrap().get("hello").is_none());

    let raw = vec![
        ("dev".to_string(), format!("/nix/store/{HELLO}")),
        ("out".to_string(), format!("/nix/store/{GLIBC}")),
    ];
    state.record(&jobs[1], &raw).unwrap();
    let glibc = state.lockfile.system(x86_linux()).unwrap().get("glibc").unwrap();
    assert_eq!(glibc.outputs.len(), 1);
    assert_eq!(glibc.outputs[0].0, "out");
    assert!(glibc.hash.same(&package("glibc", &["out"]).hash()));

    state.record(&jobs[0], &raw).unwrap();
    let hello = state.lockfile.system(x86_linux()).unwrap().get("hello").unwrap();
    assert_eq!(hello.outputs.len(), 2);

    let bad = vec![("out".to_string(), "/gnu/store/x".to_string())];
    assert!(state.record(&jobs[0], &bad).is_err());
    let outputs = state.lockfile.collect_outputs(x86_linux());
    let names: Vec<&str> = outputs.iter().map(|p| p.as_str()).collect();
    assert_eq!(names, vec![GLIBC, HELLO, GLIBC]);
}

#[test]
fn collect_outputs_of_unknown_system_is_empty() {
    let l = Lockfile::new();
    assert!(l.collect_outputs(x86_linux()).is_empty());
}

#[test]
fn parser_message_loses_its_location() {
    assert_eq!(error_summary("expected `,` at line 3 column 7"), "expected `,`");
    assert_eq!(error_summary("a at line 1 b at line 2 column 3"), "a at line 1 b");
    assert_eq!(error_summary("no location"), "no location");
}

#[test]
fn well_formedness_checks() {
    let mut l = Lockfile::new();
    l.insert(x86_linux(), "hello".to_string(), hello_lock(package("hello", &[]).hash()));
    assert!(l.is_well_formed());
    l.systems.push((x86_linux(), SystemLockfile::new()));
    assert!(!l.is_well_formed());

    let m = manifest(vec![("hello", package("hello", &[])), ("hello", package("hello", &[]))]);
    assert!(!m.is_well_formed());
    let m = manifest(vec![("hello", package("hello", &[]))]);
    assert!(m.is_well_formed());
}

#[test]
fn lockfile_from_plain_content() {
    let hash = package("hello", &[]).hash().to_string();
    let entry = |h: &str, p: &str| ("hello".to_string(), h.to_string(), vec![("out".to_string(), p.to_string())]);
    let ok = Lockfile::from_plain(0, vec![("x86_64-linux".to_string(), vec![entry(&hash, HELLO)])]).unwrap();
    let kept = ok.system(x86_linux()).unwrap().get("hello").unwrap();
    assert_eq!(kept.outputs[0].1.as_str(), HELLO);
    assert!(matches!(Lockfile::from_plain(1, vec![]), Err(unnix::lockfile::LockfileError::UnsupportedVersion(1))));
    assert!(Lockfile::from_plain(0, vec![("riscv-linux".to_string(), vec![])]).is_err());
    assert!(Lockfile::from_plain(0, vec![("x86_64-linux".to_string(), vec![entry("AAAA", HELLO)])]).is_err());
    assert!(Lockfile::from_plain(0, vec![("x86_64-linux".to_string(), vec![entry(&hash, "/nix/store/x")])]).is_err());
}
