use unnix::narinfo::{Compression, Narinfo, NarinfoError};

const HELLO: &str = "
StorePath: /nix/store/hwz2l7ihv2skq7gr5l3paavs3rr9il7z-hello-2.12.1
URL: nar/0h9dh04gd4zj0f4wcfn0i6f496q054fs3fpw099x5mcdayzi6ra6.nar.xz
Compression: xz
FileHash: sha256:0h9dh04gd4zj0f4wcfn0i6f496q054fs3fpw099x5mcdayzi6ra6
FileSize: 50356
NarHash: sha256:1kcsbgcx1f2z7qaj4a29zfa8ad7866f15hdbcds6kv92qf928fkw
NarSize: 226560
References: 5m9amsvvh2z8sl7jrnc87hzy21glw6k1-glibc-2.40-66 hwz2l7ihv2skq7gr5l3paavs3rr9il7z-hello-2.12.1
Deriver: gciipqhqkdlqqn803zd4a389v86ran45-hello-2.12.1.drv
Sig: cache.nixos.org-1:k2IFtC1gRLHfYPqHVmOUI2leueaS6DLXlmiQSsp2tOJ4+kKdx5UAm2m10cR/vz7U50QvgEcvrqCICw2CRLy3Cg==
";

#[test]
fn nar_basic() {
    let n = Narinfo::parse(HELLO).unwrap();
    assert!(matches!(n.compression, Compression::Xz));
    assert_eq!(n.url, "nar/0h9dh04gd4zj0f4wcfn0i6f496q054fs3fpw099x5mcdayzi6ra6.nar.xz");
    assert_eq!(n.references.len(), 2);
    assert_eq!(n.references[0].as_str(), "5m9amsvvh2z8sl7jrnc87hzy21glw6k1-glibc-2.40-66");
    assert_eq!(n.references[1].as_str(), "hwz2l7ihv2skq7gr5l3paavs3rr9il7z-hello-2.12.1");
}

#[test]
fn narinfo_scenario() {
    let text = "StorePath: /nix/store/hwz2l7ihv2skq7gr5l3paavs3rr9il7z-hello-2.12.1\n\
URL: nar/0h9dh04gd4zj0f4wcfn0i6f496q054fs3fpw099x5mcdayzi6ra6.nar.xz\n\
Compression: xz\n\
References: 5m9amsvvh2z8sl7jrnc87hzy21glw6k1-glibc-2.40-66 hwz2l7ihv2skq7gr5l3paavs3rr9il7z-hello-2.12.1\n";
    let n = Narinfo::parse(text).unwrap();
    assert_eq!(n.compression, Compression::Xz);
    assert_eq!(n.url, "nar/0h9dh04gd4zj0f4wcfn0i6f496q054fs3fpw099x5mcdayzi6ra6.nar.xz");
    assert_eq!(n.references.len(), 2);
}

#[test]
fn narinfo_missing_url() {
    let text = "Compression: xz\nReferences: \n";
    let e = Narinfo::parse(text).unwrap_err();
    assert!(matches!(e, NarinfoError::MissingFields));
    assert_eq!(e.message(), "not all required fields found");
}

#[test]
fn narinfo_empty_references_and_crlf() {
    let text = "URL: nar/x.nar\r\nCompression: none\r\nReferences: \r\nExtra: ignored\r\nno separator here\r\n";
    let n = Narinfo::parse(text).unwrap();
    assert_eq!(n.url, "nar/x.nar");
    assert_eq!(n.compression, Compression::Uncompressed);
    assert!(n.references.is_empty());
}

#[test]
fn narinfo_later_lines_win() {
    let text = "URL: a\nURL: b\nCompression: gzip\nCompression: zstd\nReferences: \n";
    let n = Narinfo::parse(text).unwrap();
    assert_eq!(n.url, "b");
    assert_eq!(n.compression, Compression::Zstd);
}

#[test]
fn narinfo_bad_compression_and_reference() {
    let e = Narinfo::parse("Compression: rar\nURL: a\nReferences: \n").unwrap_err();
    match e {
        NarinfoError::UnsupportedCompression(t) => assert_eq!(t, "rar"),
        other => panic!("unexpected {other:?}"),
    }
    let e = Narinfo::parse("References: hwz2l7ihv2skq7gr5l3paavs3rr9il7z-ok nope\n").unwrap_err();
    match e {
        NarinfoError::InvalidReference(t) => assert_eq!(t, "nope"),
        other => panic!("unexpected {other:?}"),
    }
}
