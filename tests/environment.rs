use unnix::environment::{export_lines, prefix_env_subpaths, EnvError};
use unnix::lockfile::{Lockfile, PackageLock};
use unnix::package::{Package, Source};
use unnix::propagate::{parse_propagated, PropagatedInputs};
use unnix::state::{Manifest, State, SystemManifest};
use unnix::store_path::StorePath;
use unnix::system::System;

const A: &str = "hwz2l7ihv2skq7gr5l3paavs3rr9il7z-a";
const B: &str = "5m9amsvvh2z8sl7jrnc87hzy21glw6k1-b";

fn path(s: &str) -> StorePath {
    StorePath::from_storeless(s.to_string()).unwrap()
}

#[test]
fn environment_build() {
    let paths = vec![path(A), path(B)];
    let bin = prefix_env_subpaths(":", &paths, "bin", &vec![true, false], Some("/usr/bin".to_string()));
    assert_eq!(bin, format!("/nix/store/{A}/bin:/usr/bin"));
    let lib = prefix_env_subpaths(":", &paths, "lib", &vec![false, false], Some("/usr/lib".to_string()));
    assert_eq!(lib, ":/usr/lib");
    let pc = prefix_env_subpaths(":", &paths, "lib/pkgconfig", &vec![false, true], None);
    assert_eq!(pc, format!("/nix/store/{B}/lib/pkgconfig"));
    let both = prefix_env_subpaths(":", &paths, "bin", &vec![true, true], None);
    assert_eq!(both, format!("/nix/store/{A}/bin:/nix/store/{B}/bin"));
    let none = prefix_env_subpaths(":", &vec![], "bin", &vec![], None);
    assert_eq!(none, "");
}

fn state_with_env(env: Vec<(&str, &str)>) -> State {
    let sys = System::from_str("x86_64-linux").unwrap();
    let manifest = Manifest {
        systems: vec![(
            sys,
            SystemManifest {
                packages: vec![(
                    "hello".to_string(),
                    Package { attribute: "hello".to_string(), outputs: vec![], source: Source::default_source() },
                )],
                caches: vec![],
                env: env.into_iter().map(|(n, v)| (n.to_string(), v.to_string())).collect(),
            },
        )],
    };
    let mut state = State::new(manifest, sys);
    let hash = state.manifest.systems[0].1.packages[0].1.hash();
    state.lockfile = Lockfile::new();
    state.lockfile.insert(
        sys,
        "hello".to_string(),
        PackageLock { hash, outputs: vec![("out".to_string(), path(A))] },
    );
    state
}

#[test]
fn user_variables_follow_search_paths() {
    let state = state_with_env(vec![("HELLO", "{hello.out}/bin/hello"), ("PLAIN", "x")]);
    let env = state.env("p".to_string(), "l".to_string(), "c".to_string()).unwrap();
    let names: Vec<&str> = env.iter().map(|(n, _)| n.as_str()).collect();
    assert_eq!(names, vec!["PATH", "LIBRARY_PATH", "PKG_CONFIG_PATH", "HELLO", "PLAIN"]);
    assert_eq!(env[0].1, "p");
    assert_eq!(env[3].1, format!("/nix/store/{A}/bin/hello"));
    assert_eq!(env[4].1, "x");
    let subs = state.substitutions();
    assert_eq!(subs, vec![("hello.out".to_string(), format!("/nix/store/{A}"))]);
}

#[test]
fn unknown_placeholder_fails() {
    let state = state_with_env(vec![("BAD", "{nope.out}")]);
    match state.env(String::new(), String::new(), String::new()) {
        Err(EnvError::Template(t)) => assert_eq!(t, "{nope.out}"),
        other => panic!("unexpected {other:?}"),
    }
}

#[test]
fn unsupported_host_system() {
    let mut state = state_with_env(vec![]);
    state.system = System::from_str("aarch64-darwin").unwrap();
    assert!(matches!(state.env(String::new(), String::new(), String::new()), Err(EnvError::UnsupportedSystem)));
}

#[test]
fn print_env() {
    let env = vec![
        ("PATH".to_string(), "/nix/store/x/bin:/usr/bin".to_string()),
        ("LIBRARY_PATH".to_string(), "".to_string()),
        ("PKG_CONFIG_PATH".to_string(), "/plain".to_string()),
        ("GREETING".to_string(), "it's here!".to_string()),
    ];
    assert_eq!(
        export_lines(&env),
        "export PATH='/nix/store/x/bin:/usr/bin'\n\
export LIBRARY_PATH=''\n\
export PKG_CONFIG_PATH=/plain\n\
export GREETING='it'\\''s here'\\!''\n"
    );
}

#[test]
fn propagated_inputs_walk() {
    let found = parse_propagated(&format!(" /nix/store/{B}\n/nix/store/{A} ")).unwrap();
    let names: Vec<&str> = found.iter().map(|p| p.as_str()).collect();
    assert_eq!(names, vec![B, A]);
    assert!(parse_propagated(B).is_err());
    assert!(parse_propagated("").unwrap().is_empty());

    let mut walk = PropagatedInputs::new();
    let first = walk.schedule(vec![path(A)]);
    assert_eq!(first.len(), 1);
    let next = walk.add(&format!("/nix/store/{B}")).unwrap();
    let again = walk.schedule(next);
    assert_eq!(again.len(), 1);
    let next = walk.add(&format!("/nix/store/{A}")).unwrap();
    assert!(walk.schedule(next).is_empty());
    let mut all: Vec<String> = walk.into_found().iter().map(|p| p.as_str().to_string()).collect();
    all.sort();
    assert_eq!(all, vec![B.to_string(), A.to_string()]);
}
