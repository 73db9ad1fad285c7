use unnix::package::{Base64Hash, HashError, Jobset, Package, Source};
use unnix::system::System;

fn hello() -> Package {
    Package {
        attribute: "hello".to_string(),
        outputs: vec!["dev".to_string(), "out".to_string()],
        source: Source::default_source(),
    }
}

#[test]
fn package_json_is_compact_and_ordered() {
    assert_eq!(
        hello().to_json(),
        "{\"attribute\":\"hello\",\"outputs\":[\"dev\",\"out\"],\"source\":{\"type\":\"hydra\",\
\"base\":\"https://hydra.nixos.org\",\"project\":\"nixpkgs\",\"jobset\":\"unstable\",\
\"job\":\"{attribute}.{system}\"}}"
    );
    let quoted = Package { attribute: "a\"b".to_string(), outputs: vec![], source: Source::default_source() };
    assert!(quoted.to_json().starts_with("{\"attribute\":\"a\\\"b\",\"outputs\":[],"));
}

#[test]
fn package_hash_is_blake3_of_json() {
    let h = hello().hash();
    let expected = blake3::hash(hello().to_json().as_bytes());
    assert_eq!(h.as_bytes(), expected.as_bytes());
    let mut other = hello();
    other.outputs.pop();
    assert!(!other.hash().same(&h));
    assert!(hello().hash().same(&h));
}

#[test]
fn base64_round_trip() {
    let h = hello().hash();
    let text = h.to_string();
    assert_eq!(text.len(), 44);
    assert!(text.ends_with('='));
    let back = Base64Hash::from_str(&text).unwrap();
    assert!(back.same(&h));
    assert!(matches!(Base64Hash::from_str("not base64!"), Err(HashError::InvalidBase64)));
    assert!(matches!(Base64Hash::from_str("AAAA"), Err(HashError::InvalidLength(3))));
}

#[test]
fn hydra_url() {
    let Source::Hydra(j) = Source::default_source();
    let sys = System::from_str("x86_64-linux").unwrap();
    assert_eq!(
        j.outputs_url("hello", sys).unwrap(),
        "https://hydra.nixos.org/job/nixpkgs/unstable/hello.x86_64-linux/latest-for/x86_64-linux"
    );
    let custom = Jobset {
        base: "https://h".to_string(),
        project: "p".to_string(),
        jobset: "j".to_string(),
        job: "{unknown}".to_string(),
    };
    assert_eq!(custom.outputs_url("a", sys).unwrap_err().template, "{unknown}");
}

#[test]
fn json_escapes_control_characters() {
    let p = Package { attribute: "a\tb\u{1}\\".to_string(), outputs: vec![], source: Source::default_source() };
    assert!(p.to_json().starts_with("{\"attribute\":\"a\\tb\\u0001\\\\\","));
}
