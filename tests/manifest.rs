use unnix::manifest::{Entry, Node, Span, Tree, Value};
use unnix::package::Source;
use unnix::state::Manifest;
use unnix::system::{Arch, Kernel, System};

fn at() -> Span {
    Span { offset: 0, len: 0 }
}

fn arg(v: Value) -> Entry {
    Entry { name: None, value: v, span: at() }
}

fn prop(name: &str, v: Value) -> Entry {
    Entry { name: Some(name.to_string()), value: v, span: at() }
}

fn text(s: &str) -> Value {
    Value::Text(s.to_string())
}

/// Adds a block to the tree and returns its index.
fn block(tree: &mut Tree, nodes: Vec<Node>) -> usize {
    tree.docs.push(nodes);
    tree.docs.len() - 1
}

fn node(name: &str, entries: Vec<Entry>, children: Option<usize>) -> Node {
    Node { name: name.to_string(), name_span: at(), entries, children, children_span: at(), span: at() }
}

fn leaf(name: &str) -> Node {
    node(name, vec![], None)
}

fn system(arch: Arch, kernel: Kernel) -> System {
    System { arch, kernel }
}

#[test]
fn mod_basic() {
    let mut tree = Tree { docs: vec![vec![]] };
    let pkgs = block(&mut tree, vec![node("hello", vec![arg(text("out")), arg(text("dev"))], None)]);
    tree.docs[0] = vec![node("packages", vec![], Some(pkgs))];
    let m = Manifest::parse_tree(&tree).unwrap();
    let systems: Vec<System> = m.systems.iter().map(|(s, _)| *s).collect();
    assert_eq!(
        systems,
        vec![
            system(Arch::Aarch64, Kernel::Darwin),
            system(Arch::Aarch64, Kernel::Linux),
            system(Arch::X86_64, Kernel::Linux),
        ]
    );
    for (_, sm) in &m.systems {
        assert_eq!(sm.caches, vec!["https://cache.nixos.org/".to_string()]);
        assert_eq!(sm.packages.len(), 1);
        let pkg = &sm.packages[0].1;
        assert_eq!(pkg.attribute, "hello");
        assert_eq!(pkg.outputs, vec!["dev".to_string(), "out".to_string()]);
        let Source::Hydra(j) = &pkg.source;
        assert_eq!(j.base, "https://hydra.nixos.org");
    }
}

#[test]
fn cache_no_default() {
    let mut tree = Tree { docs: vec![vec![]] };
    let systems = block(&mut tree, vec![leaf("x86_64-linux")]);
    let caches = block(&mut tree, vec![leaf("https://example.org/cache")]);
    tree.docs[0] = vec![
        node("systems", vec![], Some(systems)),
        node("caches", vec![prop("default", Value::Bool(false))], Some(caches)),
    ];
    let m = Manifest::parse_tree(&tree).unwrap();
    assert_eq!(m.systems.len(), 1);
    assert_eq!(m.systems[0].1.caches, vec!["https://example.org/cache".to_string()]);
}

#[test]
fn hydra() {
    let mut tree = Tree { docs: vec![vec![]] };
    let systems = block(&mut tree, vec![leaf("x86_64-linux"), leaf("aarch64-darwin")]);
    let base = block(&mut tree, vec![
        node("base", vec![arg(text("https://hydra.example"))], None),
        node("project", vec![arg(text("p"))], None),
        node("jobset", vec![arg(text("j"))], None),
    ]);
    let linux_pkgs = block(&mut tree, vec![node(
        "tool",
        vec![prop("source", text("mine")), prop("attribute", text("pkgs.tool"))],
        None,
    )]);
    let linux_env = block(&mut tree, vec![node("TOOL", vec![arg(text("{tool.out}/bin/tool"))], None)]);
    let linux = block(&mut tree, vec![
        node("packages", vec![], Some(linux_pkgs)),
        node("env", vec![], Some(linux_env)),
    ]);
    tree.docs[0] = vec![
        node("systems", vec![], Some(systems)),
        node("hydra", vec![arg(text("mine"))], Some(base)),
        node("system", vec![arg(text("linux"))], Some(linux)),
    ];
    let m = Manifest::parse_tree(&tree).unwrap();
    assert_eq!(m.systems.len(), 2);
    let (linux_sys, linux_m) = &m.systems[0];
    assert_eq!(*linux_sys, system(Arch::X86_64, Kernel::Linux));
    assert_eq!(linux_m.packages.len(), 1);
    let pkg = &linux_m.packages[0].1;
    assert_eq!(pkg.attribute, "pkgs.tool");
    let Source::Hydra(j) = &pkg.source;
    assert_eq!(j.base, "https://hydra.example");
    assert_eq!(j.job, "{attribute}.{system}");
    assert_eq!(linux_m.env, vec![("TOOL".to_string(), "{tool.out}/bin/tool".to_string())]);
    assert!(m.systems[1].1.packages.is_empty());
    assert!(m.systems[1].1.env.is_empty());
}

#[test]
fn grammar_errors() {
    let mut tree = Tree { docs: vec![vec![leaf("bogus")]] };
    assert_eq!(Manifest::parse_tree(&tree).unwrap_err().message, "invalid node");

    let pkgs = block(&mut tree, vec![leaf("a"), leaf("a")]);
    tree.docs[0] = vec![node("packages", vec![], Some(pkgs))];
    assert_eq!(Manifest::parse_tree(&tree).unwrap_err().message, "duplicate package");

    let pkgs = block(&mut tree, vec![node("a", vec![prop("source", text("nowhere"))], None)]);
    tree.docs[0] = vec![node("packages", vec![], Some(pkgs))];
    assert_eq!(Manifest::parse_tree(&tree).unwrap_err().message, "source \"nowhere\" not found");

    let systems = block(&mut tree, vec![leaf("riscv64-linux")]);
    tree.docs[0] = vec![node("systems", vec![], Some(systems))];
    assert_eq!(Manifest::parse_tree(&tree).unwrap_err().message, "unsupported system: riscv64-linux");

    let hydra = block(&mut tree, vec![node("base", vec![arg(text("b"))], None)]);
    tree.docs[0] = vec![node("hydra", vec![arg(text("h"))], Some(hydra))];
    assert_eq!(Manifest::parse_tree(&tree).unwrap_err().message, "missing project");

    let caches = block(&mut tree, vec![leaf("not a url")]);
    tree.docs[0] = vec![node("caches", vec![], Some(caches))];
    assert!(Manifest::parse_tree(&tree).is_err());

    tree.docs[0] = vec![node("system", vec![arg(text("linux"))], None)];
    assert_eq!(Manifest::parse_tree(&tree).unwrap_err().message, "expected children");
}

#[test]
fn system_block_caches() {
    let mut tree = Tree { docs: vec![vec![]] };
    let systems = block(&mut tree, vec![leaf("x86_64-linux"), leaf("aarch64-darwin")]);
    let top_caches = block(&mut tree, vec![leaf("https://top.example")]);
    let darwin_caches = block(&mut tree, vec![leaf("https://darwin.example/c")]);
    let darwin = block(&mut tree, vec![node(
        "caches",
        vec![prop("default", Value::Bool(false))],
        Some(darwin_caches),
    )]);
    tree.docs[0] = vec![
        node("systems", vec![], Some(systems)),
        node("caches", vec![], Some(top_caches)),
        node("system", vec![arg(text("darwin"))], Some(darwin)),
    ];
    let m = Manifest::parse_tree(&tree).unwrap();
    assert_eq!(
        m.systems[0].1.caches,
        vec!["https://cache.nixos.org/".to_string(), "https://top.example/".to_string()]
    );
    assert_eq!(
        m.systems[1].1.caches,
        vec!["https://top.example/".to_string(), "https://darwin.example/c".to_string()]
    );
}

#[test]
fn ordered_insertion() {
    let mut v: Vec<String> = vec![];
    for s in ["out", "dev", "lib", "dev", "bin"] {
        unnix::text::insert_ordered(&mut v, s.to_string());
    }
    assert_eq!(v, vec!["bin", "dev", "lib", "out"]);
}

#[test]
fn variables_are_sorted_by_name() {
    let mut tree = Tree { docs: vec![vec![]] };
    let env = block(&mut tree, vec![
        node("ZED", vec![arg(text("z"))], None),
        node("ALPHA", vec![arg(text("a"))], None),
        node("MID", vec![arg(text("m"))], None),
        node("ALPHA", vec![arg(text("again"))], None),
    ]);
    tree.docs[0] = vec![node("env", vec![], Some(env))];
    let m = Manifest::parse_tree(&tree).unwrap();
    let names: Vec<&str> = m.systems[0].1.env.iter().map(|(n, _)| n.as_str()).collect();
    assert_eq!(names, vec!["ALPHA", "MID", "ZED"]);
    assert_eq!(m.systems[0].1.env[0].1, "again");
}
