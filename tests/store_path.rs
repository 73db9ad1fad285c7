use unnix::narinfo::Compression;
use unnix::store_path::{StorePath, StorePathError};
use unnix::system::{Arch, Kernel, System, SystemPredicate};

const FULL: &str = "/nix/store/hwz2l7ihv2skq7gr5l3paavs3rr9il7z-hello-2.12.1";
const BARE: &str = "hwz2l7ihv2skq7gr5l3paavs3rr9il7z-hello-2.12.1";

#[test]
fn path_basic() {
    let full = StorePath::new(FULL);
    assert!(full.is_ok());
    assert_eq!(full.unwrap().as_str(), BARE);
    let bare = StorePath::from_storeless(BARE.to_string());
    assert!(bare.is_ok());
    assert_eq!(bare.unwrap().as_str(), BARE);
}

#[test]
fn fails() {
    assert!(StorePath::new("/guix/store/hwz2l7ihv2skq7gr5l3paavs3rr9il7z-hello-2.12.1").is_err());
    assert!(StorePath::new("/nix/store/hello-2.12.1").is_err());
    assert!(StorePath::from_storeless("hwz2l7ihv2skq7gr5l3paavs3rr9il7z".to_string()).is_err());
}

#[test]
fn rejections_are_distinct() {
    let guix = StorePath::new("/guix/store/hwz2l7ihv2skq7gr5l3paavs3rr9il7z-hello-2.12.1");
    assert!(matches!(guix, Err(StorePathError::MissingStorePrefix(_))));
    let bad_hash = StorePath::new("/nix/store/hello-2.12.1");
    assert_eq!(bad_hash.unwrap_err(), StorePathError::InvalidName("hello-2.12.1".to_string()));
    let no_name = StorePath::from_storeless("hwz2l7ihv2skq7gr5l3paavs3rr9il7z".to_string());
    assert_eq!(
        no_name.unwrap_err(),
        StorePathError::InvalidName("hwz2l7ihv2skq7gr5l3paavs3rr9il7z".to_string())
    );
}

#[test]
fn parse_store_path_scenario() {
    let p = StorePath::new(FULL).unwrap();
    assert_eq!(p.hash(), "hwz2l7ihv2skq7gr5l3paavs3rr9il7z");
}

#[test]
fn hash_and_round_trip() {
    let p = StorePath::from_storeless(BARE.to_string()).unwrap();
    assert_eq!(p.hash().chars().count(), 32);
    let again = StorePath::from_storeless(p.to_string()).unwrap();
    assert!(again == p);
}

#[test]
fn full_path_agrees_with_bare_name() {
    for s in [BARE, "hello-2.12.1", "5m9amsvvh2z8sl7jrnc87hzy21glw6k1-glibc-2.40-66", ""] {
        let full = StorePath::new(&format!("/nix/store/{s}"));
        let bare = StorePath::from_storeless(s.to_string());
        assert_eq!(full.is_ok(), bare.is_ok());
        if let (Ok(a), Ok(b)) = (full, bare) {
            assert!(a == b);
        }
    }
}

#[test]
fn names_with_slash_or_bad_alphabet_are_refused() {
    assert!(StorePath::from_storeless("hwz2l7ihv2skq7gr5l3paavs3rr9il7z-a/b".to_string()).is_err());
    assert!(StorePath::from_storeless("ewz2l7ihv2skq7gr5l3paavs3rr9il7z-hello".to_string()).is_err());
    assert!(StorePath::from_storeless("hwz2l7ihv2skq7gr5l3paavs3rr9il7z-".to_string()).is_err());
    assert!(StorePath::from_storeless("hwz2l7ihv2skq7gr5l3paavs3rr9il7z_hello".to_string()).is_err());
}

#[test]
fn compression_tokens_round_trip() {
    for t in ["br", "bzip2", "gzip", "lz4", "lzma", "none", "xz", "zstd"] {
        assert_eq!(Compression::from_str(t).unwrap().as_str(), t);
    }
    assert!(matches!(Compression::from_str("xz"), Ok(Compression::Xz)));
    assert!(Compression::from_str("brotli").is_err());
}

#[test]
fn systems_parse_and_render() {
    for t in ["aarch64-darwin", "aarch64-linux", "x86_64-darwin", "x86_64-linux"] {
        assert_eq!(System::from_str(t).unwrap().to_string(), t);
    }
    assert!(System::from_str("riscv64-linux").is_err());
    let host = System::host("x86_64", "macos").unwrap();
    assert_eq!(host, System { arch: Arch::X86_64, kernel: Kernel::Darwin });
    assert!(System::host("riscv64", "linux").is_err());
    assert!(System::host("x86_64", "windows").is_err());
}

#[test]
fn predicates_match_components() {
    let linux = SystemPredicate::from_str("linux").unwrap();
    assert_eq!(linux, SystemPredicate { architecture: None, kernel: Some(Kernel::Linux) });
    let arm = SystemPredicate::from_str("aarch64").unwrap();
    let exact = SystemPredicate::from_str("x86_64-darwin").unwrap();
    let sys = System { arch: Arch::Aarch64, kernel: Kernel::Linux };
    assert!(linux.admits(&sys));
    assert!(arm.admits(&sys));
    assert!(!exact.admits(&sys));
    assert!(SystemPredicate::from_str("plan9").is_err());
}
