//! The manifest grammar: a KDL document, given as a tree of plain nodes, read into
//! the per-platform `Manifest`.
use vstd::prelude::*;

use crate::lockfile::{has_key, keys_distinct};
use crate::package::{Jobset, Package, Source};
use crate::state::{packages_view, Manifest, SystemManifest};
use crate::system::{Arch, Kernel, System, SystemPredicate};
use crate::text::{push_str, str_eq, string_views};

verus! {

/// A location in the manifest text: byte offset and length.
#[derive(Debug, Clone, Copy, PartialEq, Eq, Structural)]
pub struct Span {
    pub offset: usize,
    pub len: usize,
}

/// The value of a KDL entry, as far as the grammar reads it.
#[derive(Debug)]
pub enum Value {
    Text(String),
    Bool(bool),
    /// A number or `null`.
    Other,
}

/// An argument (no name) or a property (`name=value`) of a node.
#[derive(Debug)]
pub struct Entry {
    pub name: Option<String>,
    pub value: Value,
    pub span: Span,
}

/// A KDL node; `children` is the index in `Tree::docs` of its block, if it has one.
#[derive(Debug)]
pub struct Node {
    pub name: String,
    pub name_span: Span,
    pub entries: Vec<Entry>,
    pub children: Option<usize>,
    pub children_span: Span,
    pub span: Span,
}

/// A KDL document: `docs[0]` is the top level; every block is one list of nodes.
#[derive(Debug)]
pub struct Tree {
    pub docs: Vec<Vec<Node>>,
}

/// A manifest that does not follow the grammar, with the place it points at.
#[derive(Debug)]
pub struct ManifestError {
    pub message: String,
    pub span: Option<Span>,
}

fn fail<T>(message: &str, span: Span) -> (r: Result<T, ManifestError>)
    ensures
        r matches Err(e) && e.message@ == message@ && e.span == Some(span),
{
    Err(ManifestError { message: message.to_owned(), span: Some(span) })
}

/// Refuses any entry on `node`.
fn no_entries(node: &Node) -> (r: Result<(), ManifestError>)
    ensures
        r is Ok <==> node.entries@.len() == 0,
{
    if node.entries.len() > 0 {
        let e = &node.entries[0];
        match &e.name {
            Some(_) => fail("unexpected property", e.span),
            None => fail("unexpected argument", e.span),
        }
    } else {
        Ok(())
    }
}

/// Refuses a block on `node`.
fn no_children(node: &Node) -> (r: Result<(), ManifestError>)
    ensures
        r is Ok <==> node.children is None,
{
    match node.children {
        Some(_) => fail("unexpected children", node.children_span),
        None => Ok(()),
    }
}

/// The string value of `entry`.
fn text_of(entry: &Entry) -> (r: Result<&String, ManifestError>)
    ensures
        match entry.value {
            Value::Text(t) => r == Ok::<&String, ManifestError>(&t),
            _ => r is Err,
        },
{
    match &entry.value {
        Value::Text(t) => Ok(t),
        _ => fail("expected string", entry.span),
    }
}

/// The one string argument of `node`.
fn text_argument(node: &Node) -> (r: Result<&String, ManifestError>)
    ensures
        r is Ok <==> text_argument_ok(*node),
        r is Ok ==> node.entries@.len() == 1 && node.entries@[0].name is None,
        r matches Ok(t) ==> node.entries@[0].value == Value::Text(*t),
{
    if node.entries.len() != 1 {
        return fail("expected one argument", node.span);
    }
    match &node.entries[0].name {
        Some(_) => fail("unexpected property", node.span),
        None => text_of(&node.entries[0]),
    }
}

/// `node` has exactly one argument, a string.
pub open spec fn text_argument_ok(node: Node) -> bool {
    &&& node.entries@.len() == 1
    &&& node.entries@[0].name is None
    &&& node.entries@[0].value is Text
}

/// The string value of an entry (empty for other values).
pub open spec fn entry_text(e: Entry) -> Seq<char> {
    match e.value {
        Value::Text(t) => t@,
        _ => seq![],
    }
}

/// A well-formed entry of a package node: an output name (a string argument), or a
/// string `source` or `attribute` property.
pub open spec fn package_entry_ok(e: Entry) -> bool {
    &&& e.value is Text
    &&& (e.name matches Some(n) ==> n@ == "source"@ || n@ == "attribute"@)
}

/// A well-formed package node: no block, well-formed entries, no output named twice.
pub open spec fn package_child_ok(c: Node) -> bool {
    &&& c.children is None
    &&& forall|i: int| 0 <= i < c.entries@.len() ==> package_entry_ok(#[trigger] c.entries@[i])
    &&& forall|i: int, j: int|
        0 <= i < j < c.entries@.len() && (#[trigger] c.entries@[i]).name is None
            && (#[trigger] c.entries@[j]).name is None ==> entry_text(c.entries@[i]) != entry_text(
            c.entries@[j],
        )
}

/// The last `source` property among `es`, if any.
pub open spec fn source_of(es: Seq<Entry>) -> Option<Seq<char>>
    decreases es.len(),
{
    if es.len() == 0 {
        None
    } else if es.last().name matches Some(n) && n@ == "source"@ {
        Some(entry_text(es.last()))
    } else {
        source_of(es.drop_last())
    }
}

/// The source a package node names: its last `source` property, else `default`.
pub open spec fn package_source(c: Node) -> Seq<char> {
    match source_of(c.entries@) {
        Some(t) => t,
        None => "default"@,
    }
}

/// A well-formed `packages` node: no entries, and well-formed package nodes.
pub open spec fn packages_node_ok(tree: Tree, node: Node) -> bool {
    &&& node.entries@.len() == 0
    &&& forall|i: int|
        0 <= i < block_nodes(tree, node).len() ==> package_child_ok(#[trigger] block_nodes(tree, node)[i])
}

/// A well-formed `env` node: no entries; each variable has no block and one string.
pub open spec fn env_node_ok(tree: Tree, node: Node) -> bool {
    &&& node.entries@.len() == 0
    &&& forall|i: int|
        0 <= i < block_nodes(tree, node).len() ==> (#[trigger] block_nodes(tree, node)[i]).children is None
            && text_argument_ok(block_nodes(tree, node)[i])
}

/// A well-formed `caches` node: only boolean `default` properties; each cache has no
/// entries, no block, and names a URL.
pub open spec fn caches_node_ok(tree: Tree, node: Node) -> bool {
    &&& forall|i: int|
        0 <= i < node.entries@.len() ==> ((#[trigger] node.entries@[i]).name matches Some(n) && n@
            == "default"@ && node.entries@[i].value is Bool)
    &&& forall|i: int|
        0 <= i < block_nodes(tree, node).len() ==> {
            let c = #[trigger] block_nodes(tree, node)[i];
            &&& c.entries@.len() == 0
            &&& c.children is None
            &&& url_parse(c.name@) is Ok
        }
}

/// A field of a `hydra` block.
pub open spec fn hydra_field(n: Seq<char>) -> bool {
    n == "base"@ || n == "project"@ || n == "jobset"@ || n == "job"@
}

/// Whether a block has a field named `n`.
pub open spec fn has_field(nodes: Seq<Node>, n: Seq<char>) -> bool {
    exists|i: int| 0 <= i < nodes.len() && (#[trigger] nodes[i]).name@ == n
}

/// A well-formed `hydra <name>` node: one string argument; fields without blocks,
/// each with one string; `base`, `project` and `jobset` present.
pub open spec fn hydra_node_ok(tree: Tree, node: Node) -> bool {
    &&& text_argument_ok(node)
    &&& forall|i: int|
        0 <= i < block_nodes(tree, node).len() ==> {
            let c = #[trigger] block_nodes(tree, node)[i];
            &&& c.children is None
            &&& hydra_field(c.name@)
            &&& text_argument_ok(c)
        }
    &&& has_field(block_nodes(tree, node), "base"@)
    &&& has_field(block_nodes(tree, node), "project"@)
    &&& has_field(block_nodes(tree, node), "jobset"@)
}

/// The names of the `hydra` nodes among `nodes`, in order.
pub open spec fn hydra_names(nodes: Seq<Node>) -> Seq<Seq<char>>
    decreases nodes.len(),
{
    if nodes.len() == 0 {
        seq![]
    } else if nodes.last().name@ == "hydra"@ {
        hydra_names(nodes.drop_last()).push(entry_text(nodes.last().entries@[0]))
    } else {
        hydra_names(nodes.drop_last())
    }
}

/// The sources that the package nodes of the `packages` nodes among `nodes` name.
pub open spec fn nodes_sources(tree: Tree, nodes: Seq<Node>) -> Seq<Seq<char>>
    decreases nodes.len(),
{
    if nodes.len() == 0 {
        seq![]
    } else {
        nodes_sources(tree, nodes.drop_last()) + if nodes.last().name@ == "packages"@ {
            child_sources(block_nodes(tree, nodes.last()))
        } else {
            seq![]
        }
    }
}

/// A well-formed `systems` node: each child names a platform, with no entries or block.
pub open spec fn systems_node_ok(tree: Tree, node: Node) -> bool {
    forall|i: int|
        0 <= i < block_nodes(tree, node).len() ==> {
            let c = #[trigger] block_nodes(tree, node)[i];
            &&& c.entries@.len() == 0
            &&& c.children is None
            &&& crate::system::system_of(c.name@) is Some
        }
}

/// A well-formed node of any block.
pub open spec fn common_node_ok(tree: Tree, node: Node) -> bool {
    if node.name@ == "packages"@ {
        packages_node_ok(tree, node)
    } else if node.name@ == "env"@ {
        env_node_ok(tree, node)
    } else if node.name@ == "caches"@ {
        caches_node_ok(tree, node)
    } else if node.name@ == "hydra"@ {
        hydra_node_ok(tree, node)
    } else {
        false
    }
}

/// A well-formed block inside a `system` node: well-formed nodes, no package named
/// twice, no source named twice.
pub open spec fn inner_block_ok(tree: Tree, nodes: Seq<Node>) -> bool {
    &&& forall|i: int| 0 <= i < nodes.len() ==> common_node_ok(tree, #[trigger] nodes[i])
    &&& nodes_packages(tree, nodes).no_duplicates()
    &&& hydra_names(nodes).no_duplicates()
}

/// A well-formed `system <predicate> { ... }` node.
pub open spec fn system_node_ok(tree: Tree, node: Node) -> bool {
    &&& node_predicate(node) is Some
    &&& node.entries@[0].name is None
    &&& node.children matches Some(b) && b < tree.docs@.len() && inner_block_ok(tree, tree.docs@[b as int]@)
}

/// A well-formed node of the top level.
pub open spec fn top_node_ok(tree: Tree, node: Node) -> bool {
    ||| common_node_ok(tree, node)
    ||| node.name@ == "systems"@ && systems_node_ok(tree, node)
    ||| node.name@ == "system"@ && system_node_ok(tree, node)
}

/// A well-formed node of a block, at the top level or not.
pub open spec fn node_ok(tree: Tree, node: Node, top: bool) -> bool {
    if top {
        top_node_ok(tree, node)
    } else {
        common_node_ok(tree, node)
    }
}

/// The grammar of a block: well-formed nodes, no package named twice, no source
/// named twice.
pub open spec fn block_accepted(tree: Tree, nodes: Seq<Node>, top: bool) -> bool {
    &&& forall|i: int| 0 <= i < nodes.len() ==> node_ok(tree, #[trigger] nodes[i], top)
    &&& nodes_packages(tree, nodes).no_duplicates()
    &&& hydra_names(nodes).no_duplicates()
}

/// A prefix of a sequence without duplicates has none.
pub proof fn lemma_no_duplicates_prefix<T>(s: Seq<T>, n: int)
    requires
        0 <= n <= s.len(),
        s.no_duplicates(),
    ensures
        s.subrange(0, n).no_duplicates(),
{
    assert forall|a: int, b: int| 0 <= a < n && 0 <= b < n && a != b implies s.subrange(0, n)[a] != s.subrange(
        0,
        n,
    )[b] by {
        assert(s.subrange(0, n)[a] == s[a] && s.subrange(0, n)[b] == s[b]);
    }
}

/// The package names of a prefix of the nodes start those of all the nodes.
pub proof fn lemma_packages_prefix(tree: Tree, nodes: Seq<Node>, k: int)
    requires
        0 <= k <= nodes.len(),
    ensures
        nodes_packages(tree, nodes.subrange(0, k)).len() <= nodes_packages(tree, nodes).len(),
        nodes_packages(tree, nodes).subrange(0, nodes_packages(tree, nodes.subrange(0, k)).len() as int)
            == nodes_packages(tree, nodes.subrange(0, k)),
    decreases nodes.len() - k,
{
    if k < nodes.len() {
        lemma_packages_prefix(tree, nodes, k + 1);
        assert(nodes.subrange(0, k + 1).drop_last() =~= nodes.subrange(0, k));
        let a = nodes_packages(tree, nodes.subrange(0, k));
        let b = nodes_packages(tree, nodes.subrange(0, k + 1));
        let f = nodes_packages(tree, nodes);
        assert(b.subrange(0, a.len() as int) =~= a);
        assert(f.subrange(0, a.len() as int) =~= b.subrange(0, a.len() as int));
    } else {
        assert(nodes.subrange(0, k) =~= nodes);
        assert(nodes_packages(tree, nodes).subrange(0, nodes_packages(tree, nodes).len() as int) =~= nodes_packages(
            tree,
            nodes,
        ));
    }
}

/// The source names of a prefix of the nodes start those of all the nodes.
pub proof fn lemma_hydra_prefix(nodes: Seq<Node>, k: int)
    requires
        0 <= k <= nodes.len(),
    ensures
        hydra_names(nodes.subrange(0, k)).len() <= hydra_names(nodes).len(),
        hydra_names(nodes).subrange(0, hydra_names(nodes.subrange(0, k)).len() as int) == hydra_names(
            nodes.subrange(0, k),
        ),
    decreases nodes.len() - k,
{
    if k < nodes.len() {
        lemma_hydra_prefix(nodes, k + 1);
        assert(nodes.subrange(0, k + 1).drop_last() =~= nodes.subrange(0, k));
        let a = hydra_names(nodes.subrange(0, k));
        let b = hydra_names(nodes.subrange(0, k + 1));
        let f = hydra_names(nodes);
        assert(b.subrange(0, a.len() as int) =~= a);
        assert(f.subrange(0, a.len() as int) =~= b.subrange(0, a.len() as int));
    } else {
        assert(nodes.subrange(0, k) =~= nodes);
        assert(hydra_names(nodes).subrange(0, hydra_names(nodes).len() as int) =~= hydra_names(nodes));
    }
}

/// A block with a bad node, or a name repeated within its first nodes, is refused.
pub proof fn lemma_block_rejected(tree: Tree, nodes: Seq<Node>, i: int, top: bool)
    requires
        0 <= i < nodes.len(),
        !node_ok(tree, nodes[i], top) || !nodes_packages(tree, nodes.subrange(0, i + 1)).no_duplicates()
            || !hydra_names(nodes.subrange(0, i + 1)).no_duplicates(),
    ensures
        !block_accepted(tree, nodes, top),
{
    lemma_packages_prefix(tree, nodes, i + 1);
    lemma_hydra_prefix(nodes, i + 1);
    if nodes_packages(tree, nodes).no_duplicates() {
        lemma_no_duplicates_prefix(
            nodes_packages(tree, nodes),
            nodes_packages(tree, nodes.subrange(0, i + 1)).len() as int,
        );
    }
    if hydra_names(nodes).no_duplicates() {
        lemma_no_duplicates_prefix(hydra_names(nodes), hydra_names(nodes.subrange(0, i + 1)).len() as int);
    }
}

/// The nodes of the block of `node`; none when it has no block.
pub open spec fn block_nodes(tree: Tree, node: Node) -> Seq<Node> {
    match node.children {
        Some(i) => if i < tree.docs@.len() {
            tree.docs@[i as int]@
        } else {
            seq![]
        },
        None => seq![],
    }
}

/// The platforms that the nodes name, those that name none left out.
pub open spec fn named_systems(nodes: Seq<Node>) -> Seq<System>
    decreases nodes.len(),
{
    if nodes.len() == 0 {
        seq![]
    } else {
        named_systems(nodes.drop_last()) + match crate::system::system_of(nodes.last().name@) {
            Some(s) => seq![s],
            None => seq![],
        }
    }
}

/// The platforms listed by the `systems` nodes among `nodes`, in order.
pub open spec fn listed_systems(tree: Tree, nodes: Seq<Node>) -> Seq<System>
    decreases nodes.len(),
{
    if nodes.len() == 0 {
        seq![]
    } else {
        listed_systems(tree, nodes.drop_last()) + if nodes.last().name@ == "systems"@ {
            named_systems(block_nodes(tree, nodes.last()))
        } else {
            seq![]
        }
    }
}

/// The platforms of a manifest: those listed at its top level, else `aarch64-darwin`,
/// `aarch64-linux` and `x86_64-linux`.
pub open spec fn manifest_systems(tree: Tree) -> Seq<System> {
    let listed = if tree.docs@.len() > 0 {
        listed_systems(tree, tree.docs@[0]@)
    } else {
        seq![]
    };
    if listed.len() > 0 {
        listed
    } else {
        seq![
            System { arch: Arch::Aarch64, kernel: Kernel::Darwin },
            System { arch: Arch::Aarch64, kernel: Kernel::Linux },
            System { arch: Arch::X86_64, kernel: Kernel::Linux },
        ]
    }
}

/// The value of the last `default` property among `es`, if any.
pub open spec fn entries_flag(es: Seq<Entry>) -> Option<bool>
    decreases es.len(),
{
    if es.len() == 0 {
        None
    } else {
        match es.last().value {
            Value::Bool(b) => if es.last().name matches Some(n) && n@ == "default"@ {
                Some(b)
            } else {
                entries_flag(es.drop_last())
            },
            _ => entries_flag(es.drop_last()),
        }
    }
}

/// The URLs that the nodes name, those that are not URLs left out.
pub open spec fn named_urls(nodes: Seq<Node>) -> Seq<Seq<char>>
    decreases nodes.len(),
{
    if nodes.len() == 0 {
        seq![]
    } else {
        named_urls(nodes.drop_last()) + match url_parse(nodes.last().name@) {
            Ok(u) => seq![u],
            Err(_) => seq![],
        }
    }
}

/// The names of some nodes.
pub open spec fn node_names(nodes: Seq<Node>) -> Seq<Seq<char>> {
    nodes.map_values(|n: Node| n.name@)
}

/// The package names of the `packages` nodes among `nodes`.
pub open spec fn nodes_packages(tree: Tree, nodes: Seq<Node>) -> Seq<Seq<char>>
    decreases nodes.len(),
{
    if nodes.len() == 0 {
        seq![]
    } else {
        nodes_packages(tree, nodes.drop_last()) + if nodes.last().name@ == "packages"@ {
            node_names(block_nodes(tree, nodes.last()))
        } else {
            seq![]
        }
    }
}

/// The variable names of the `env` nodes among `nodes`.
pub open spec fn nodes_env(tree: Tree, nodes: Seq<Node>) -> Seq<Seq<char>>
    decreases nodes.len(),
{
    if nodes.len() == 0 {
        seq![]
    } else {
        nodes_env(tree, nodes.drop_last()) + if nodes.last().name@ == "env"@ {
            node_names(block_nodes(tree, nodes.last()))
        } else {
            seq![]
        }
    }
}

/// Membership in `s` with `x` appended.
pub proof fn lemma_push_contains<T>(s: Seq<T>, x: T)
    ensures
        forall|q: T| #[trigger] s.push(x).contains(q) <==> s.contains(q) || q == x,
{
    assert forall|q: T| #[trigger] s.push(x).contains(q) <==> s.contains(q) || q == x by {
        if s.push(x).contains(q) && q != x {
            let k = choose|k: int| 0 <= k < s.push(x).len() && s.push(x)[k] == q;
            assert(s[k] == q);
        }
        if s.contains(q) {
            let k = choose|k: int| 0 <= k < s.len() && s[k] == q;
            assert(s.push(x)[k] == q);
        }
        if q == x {
            assert(s.push(x)[s.len() as int] == q);
        }
    }
}

/// Membership in a concatenation.
pub proof fn lemma_concat_contains<T>(a: Seq<T>, b: Seq<T>)
    ensures
        forall|q: T| #[trigger] (a + b).contains(q) <==> a.contains(q) || b.contains(q),
{
    assert forall|q: T| #[trigger] (a + b).contains(q) <==> a.contains(q) || b.contains(q) by {
        if (a + b).contains(q) {
            let k = choose|k: int| 0 <= k < (a + b).len() && (a + b)[k] == q;
            if k < a.len() {
                assert(a[k] == q);
            } else {
                assert(b[k - a.len()] == q);
            }
        }
        if a.contains(q) {
            let k = choose|k: int| 0 <= k < a.len() && a[k] == q;
            assert((a + b)[k] == q);
        }
        if b.contains(q) {
            let k = choose|k: int| 0 <= k < b.len() && b[k] == q;
            assert((a + b)[k + a.len()] == q);
        }
    }
}

/// The `default` setting of the `caches` nodes among `nodes`: the last one.
pub open spec fn nodes_flag(nodes: Seq<Node>) -> Option<bool>
    decreases nodes.len(),
{
    if nodes.len() == 0 {
        None
    } else if nodes.last().name@ == "caches"@ {
        match entries_flag(nodes.last().entries@) {
            Some(b) => Some(b),
            None => nodes_flag(nodes.drop_last()),
        }
    } else {
        nodes_flag(nodes.drop_last())
    }
}

/// The URLs of the `caches` nodes among `nodes`, in order.
pub open spec fn nodes_caches(tree: Tree, nodes: Seq<Node>) -> Seq<Seq<char>>
    decreases nodes.len(),
{
    if nodes.len() == 0 {
        seq![]
    } else {
        nodes_caches(tree, nodes.drop_last()) + if nodes.last().name@ == "caches"@ {
            named_urls(block_nodes(tree, nodes.last()))
        } else {
            seq![]
        }
    }
}

/// The predicate that a `system` node names.
pub open spec fn node_predicate(node: Node) -> Option<SystemPredicate> {
    if node.entries@.len() == 1 {
        match node.entries@[0].value {
            Value::Text(t) => crate::system::predicate_of(t@),
            _ => None,
        }
    } else {
        None
    }
}

/// The `system` nodes among `nodes`: their predicates and blocks, in order.
pub open spec fn system_nodes(tree: Tree, nodes: Seq<Node>) -> Seq<(SystemPredicate, Seq<Node>)>
    decreases nodes.len(),
{
    if nodes.len() == 0 {
        seq![]
    } else {
        let prev = system_nodes(tree, nodes.drop_last());
        if nodes.last().name@ == "system"@ {
            match node_predicate(nodes.last()) {
                Some(p) => prev.push((p, block_nodes(tree, nodes.last()))),
                None => prev,
            }
        } else {
            prev
        }
    }
}

/// `bs` are the blocks read from the `system` nodes `sn`.
pub open spec fn blocks_read(tree: Tree, bs: Seq<SystemBlock>, sn: Seq<(SystemPredicate, Seq<Node>)>) -> bool {
    &&& bs.len() == sn.len()
    &&& forall|k: int|
        0 <= k < bs.len() ==> {
            &&& (#[trigger] bs[k]).predicate == sn[k].0
            &&& bs[k].surface.default_cache == nodes_flag(sn[k].1)
            &&& string_views(bs[k].surface.caches@) == nodes_caches(tree, sn[k].1)
            &&& forall|q: Seq<char>|
                #[trigger] has_key(keyed(bs[k].surface.packages@), q) <==> nodes_packages(tree, sn[k].1).contains(q)
            &&& forall|q: Seq<char>|
                #[trigger] has_key(keyed(bs[k].surface.env@), q) <==> nodes_env(tree, sn[k].1).contains(q)
            &&& surface_sources(bs[k].surface.packages@) == nodes_sources(tree, sn[k].1)
            &&& string_keys(bs[k].surface.sources@) == hydra_names(sn[k].1)
        }
}

/// The block of `node`, if it has one.
fn block<'a>(tree: &'a Tree, node: &Node) -> (r: Option<&'a Vec<Node>>)
    ensures
        match r {
            Some(b) => b@ == block_nodes(*tree, *node),
            None => block_nodes(*tree, *node) == Seq::<Node>::empty(),
        },
{
    match node.children {
        Some(i) => if i < tree.docs.len() {
            Some(&tree.docs[i])
        } else {
            None
        },
        None => None,
    }
}

/// The nodes of the block of `node`; none when it has no block.
fn nodes_of<'a>(tree: &'a Tree, node: &Node, empty: &'a Vec<Node>) -> (r: &'a Vec<Node>)
    requires
        empty@.len() == 0,
    ensures
        r@ == block_nodes(*tree, *node),
{
    match block(tree, node) {
        Some(b) => b,
        None => empty,
    }
}

/// The keys of `(name, value)` pairs.
pub open spec fn keyed<V>(v: Seq<(String, V)>) -> Seq<(Seq<char>, V)> {
    v.map_values(|e: (String, V)| (e.0@, e.1))
}

/// Position of key `k` in `v`.
fn find_key<V>(v: &Vec<(String, V)>, k: &str) -> (r: Option<usize>)
    ensures
        match r {
            Some(i) => i < v@.len() && v@[i as int].0@ == k@,
            None => !has_key(keyed(v@), k@),
        },
{
    let mut i: usize = 0;
    while i < v.len()
        invariant
            i <= v@.len(),
            forall|j: int| 0 <= j < i ==> v@[j].0@ != k@,
        decreases v.len() - i,
    {
        if str_eq(v[i].0.as_str(), k) {
            return Some(i);
        }
        i += 1;
    }
    assert forall|j: int| 0 <= j < keyed(v@).len() implies keyed(v@)[j].0 != k@ by {
        assert(keyed(v@)[j].0 == v@[j].0@);
    }
    None
}

/// Sets key `k` to `x`, replacing an earlier value; keys stay distinct.
fn put<V>(v: &mut Vec<(String, V)>, k: String, x: V) -> (replaced: bool)
    requires
        keys_distinct(keyed(old(v)@)),
    ensures
        keys_distinct(keyed(final(v)@)),
        replaced == has_key(keyed(old(v)@), k@),
        forall|q: Seq<char>| #[trigger] has_key(keyed(final(v)@), q) <==> has_key(keyed(old(v)@), q) || q == k@,
        forall|j: int|
            0 <= j < final(v)@.len() ==> (#[trigger] final(v)@[j]).1 == x || old(v)@.contains(final(v)@[j]),
        !replaced ==> final(v)@ == old(v)@.push((k, x)),
{
    let ghost kv = k@;
    let ghost before = keyed(v@);
    match find_key(v, k.as_str()) {
        Some(i) => {
            let ghost old_v = v@;
            let mut e = v.remove(i);
            e.1 = x;
            v.insert(i, e);
            assert forall|j: int| 0 <= j < v@.len() implies (#[trigger] v@[j]).1 == x || old_v.contains(
                v@[j],
            ) by {
                if j != i {
                    assert(v@[j] == old_v[j]);
                }
            }
            assert(keyed(v@) =~= before.update(i as int, (kv, keyed(v@)[i as int].1)));
            assert forall|a: int, b: int| 0 <= a < b < keyed(v@).len() implies keyed(v@)[a].0
                != keyed(v@)[b].0 by {
                assert(keyed(v@)[a].0 == before[a].0 && keyed(v@)[b].0 == before[b].0);
            }
            assert forall|q: Seq<char>| #[trigger] has_key(keyed(v@), q) <==> has_key(before, q)
                || q == kv by {
                if has_key(before, q) {
                    let j = choose|j: int| 0 <= j < before.len() && before[j].0 == q;
                    assert(keyed(v@)[j].0 == q);
                }
                if has_key(keyed(v@), q) {
                    let j = choose|j: int| 0 <= j < keyed(v@).len() && keyed(v@)[j].0 == q;
                    assert(before[j].0 == q);
                }
                if q == kv {
                    assert(keyed(v@)[i as int].0 == q);
                }
            }
            assert(before[i as int].0 == kv);
            true
        },
        None => {
            let ghost old_v = v@;
            v.push((k, x));
            assert forall|j: int| 0 <= j < v@.len() implies (#[trigger] v@[j]).1 == x || old_v.contains(
                v@[j],
            ) by {
                if j < old_v.len() {
                    assert(v@[j] == old_v[j]);
                }
            }
            assert(keyed(v@) =~= before.push((kv, keyed(v@)[before.len() as int].1)));
            assert forall|a: int, b: int| 0 <= a < b < keyed(v@).len() implies keyed(v@)[a].0
                != keyed(v@)[b].0 by {
                if b == before.len() {
                    assert(before[a].0 != kv);
                }
            }
            assert forall|q: Seq<char>| #[trigger] has_key(keyed(v@), q) <==> has_key(before, q)
                || q == kv by {
                if has_key(before, q) {
                    let j = choose|j: int| 0 <= j < before.len() && before[j].0 == q;
                    assert(keyed(v@)[j].0 == q);
                }
                if has_key(keyed(v@), q) && q != kv {
                    let j = choose|j: int| 0 <= j < keyed(v@).len() && keyed(v@)[j].0 == q;
                    assert(j < before.len());
                    assert(before[j].0 == q);
                }
                if q == kv {
                    assert(keyed(v@)[before.len() as int].0 == q);
                }
            }
            false
        },
    }
}

/// A package as the manifest writes it: the name of its source, its attribute and
/// the outputs to keep.
#[derive(Debug)]
pub struct SurfacePackage {
    pub source: String,
    pub attribute: String,
    pub outputs: Vec<String>,
}

/// One block of the manifest: the top level, or a `system` block.
#[derive(Debug)]
pub struct Surface {
    pub packages: Vec<(String, SurfacePackage)>,
    pub env: Vec<(String, String)>,
    pub caches: Vec<String>,
    pub default_cache: Option<bool>,
    pub sources: Vec<(String, Jobset)>,
}

/// Each package's outputs are in strictly ascending order.
pub open spec fn surface_outputs_sorted(v: Seq<(String, SurfacePackage)>) -> bool {
    forall|j: int|
        0 <= j < v.len() ==> crate::text::strictly_sorted(string_views((#[trigger] v[j]).1.outputs@))
}

/// Each package's outputs are in strictly ascending order.
pub open spec fn outputs_sorted(v: Seq<(String, Package)>) -> bool {
    forall|j: int|
        0 <= j < v.len() ==> crate::text::strictly_sorted(string_views((#[trigger] v[j]).1.outputs@))
}

impl Surface {
    pub open spec fn wf(&self) -> bool {
        &&& surface_outputs_sorted(self.packages@)
        &&& keys_distinct(keyed(self.packages@))
        &&& keys_distinct(keyed(self.env@))
        &&& keys_distinct(keyed(self.sources@))
    }
}

/// The result of parsing `s` as a URL: its normalized text, or the error's message.
pub uninterp spec fn url_parse(s: Seq<char>) -> Result<Seq<char>, Seq<char>>;

/// Relies on `url::Url::parse`: a URL in normalized form, or the reason it is not one.
#[verifier::external_body]
fn parse_url(s: &str) -> (r: Result<String, String>)
    ensures
        match r {
            Ok(u) => url_parse(s@) == Ok::<Seq<char>, Seq<char>>(u@),
            Err(m) => url_parse(s@) == Err::<Seq<char>, Seq<char>>(m@),
        },
{
    match url::Url::parse(s) {
        Ok(u) => Ok(u.to_string()),
        Err(e) => Err(e.to_string()),
    }
}

fn copy_string(s: &String) -> (r: String)
    ensures
        r@ == s@,
{
    s.clone()
}

impl Jobset {
    /// A copy of this jobset.
    pub fn duplicate(&self) -> (r: Jobset)
        ensures
            r.base@ == self.base@,
            r.project@ == self.project@,
            r.jobset@ == self.jobset@,
            r.job@ == self.job@,
    {
        Jobset {
            base: copy_string(&self.base),
            project: copy_string(&self.project),
            jobset: copy_string(&self.jobset),
            job: copy_string(&self.job),
        }
    }
}

/// The values of a package node's sources named in `entries[..k]` are unnamed.
pub open spec fn unnamed_text_at(es: Seq<Entry>, k: int, q: Seq<char>) -> bool {
    exists|a: int| 0 <= a < k && (#[trigger] es[a]).name is None && entry_text(es[a]) == q
}

/// Reads the entries of a package node: its `source`, its `attribute`, and its
/// outputs in ascending order.
fn read_package_entries(child: &Node) -> (r: Result<(Option<String>, Option<String>, Vec<String>), ManifestError>)
    ensures
        r is Ok <==> (forall|i: int| 0 <= i < child.entries@.len() ==> package_entry_ok(#[trigger] child.entries@[i]))
            && (forall|i: int, j: int|
            0 <= i < j < child.entries@.len() && (#[trigger] child.entries@[i]).name is None
                && (#[trigger] child.entries@[j]).name is None ==> entry_text(child.entries@[i])
                != entry_text(child.entries@[j])),
        r matches Ok(t) ==> match t.0 {
            Some(src) => source_of(child.entries@) == Some(src@),
            None => source_of(child.entries@) is None,
        },
        r matches Ok(t) ==> crate::text::strictly_sorted(string_views(t.2@)),
{
    proof {
        reveal_strlit("source");
        reveal_strlit("attribute");
    }
    let es = &child.entries;
    let mut source: Option<String> = None;
    let mut attribute: Option<String> = None;
    let mut outputs: Vec<(String, ())> = Vec::new();
    let mut k: usize = 0;
    assert(keyed(outputs@) =~= Seq::<(Seq<char>, ())>::empty());
    while k < es.len()
        invariant
            es@ == child.entries@,
            "source"@.len() == 6 && "attribute"@.len() == 9,
            k <= es@.len(),
            keys_distinct(keyed(outputs@)),
            forall|j: int| 0 <= j < k ==> package_entry_ok(#[trigger] es@[j]),
            forall|i: int, j: int|
                0 <= i < j < k && (#[trigger] es@[i]).name is None && (#[trigger] es@[j]).name is None
                    ==> entry_text(es@[i]) != entry_text(es@[j]),
            forall|q: Seq<char>| #[trigger] has_key(keyed(outputs@), q) <==> unnamed_text_at(es@, k as int, q),
            match source {
                Some(src) => source_of(es@.subrange(0, k as int)) == Some(src@),
                None => source_of(es@.subrange(0, k as int)) is None,
            },
        decreases es.len() - k,
    {
        let entry = &es[k];
        assert(es@.subrange(0, k + 1).drop_last() =~= es@.subrange(0, k as int));
        assert(es@.subrange(0, k + 1).last() == *entry);
        assert forall|q: Seq<char>| #[trigger] unnamed_text_at(es@, k + 1, q) <==> (unnamed_text_at(
            es@,
            k as int,
            q,
        ) || (entry.name is None && entry_text(*entry) == q)) by {
            if unnamed_text_at(es@, k + 1, q) && !(entry.name is None && entry_text(*entry) == q) {
                let a = choose|a: int| 0 <= a < k + 1 && (#[trigger] es@[a]).name is None && entry_text(es@[a]) == q;
                assert(a < k);
            }
            if unnamed_text_at(es@, k as int, q) {
                let a = choose|a: int| 0 <= a < k && (#[trigger] es@[a]).name is None && entry_text(es@[a]) == q;
                assert(0 <= a < k + 1);
            }
            if entry.name is None && entry_text(*entry) == q {
                assert(es@[k as int] == *entry);
            }
        }
        match &entry.name {
            Some(name) => {
                if str_eq(name.as_str(), "source") {
                    let t = text_of(entry)?;
                    source = Some(t.clone());
                } else if str_eq(name.as_str(), "attribute") {
                    let t = text_of(entry)?;
                    attribute = Some(t.clone());
                } else {
                    return fail("invalid property", entry.span);
                }
            },
            None => {
                let t = text_of(entry)?;
                let ghost before = keyed(outputs@);
                if put(&mut outputs, t.clone(), ()) {
                    proof {
                        let a = choose|a: int| 0 <= a < k && (#[trigger] es@[a]).name is None && entry_text(es@[a]) == t@;
                        assert(entry_text(es@[a]) == entry_text(es@[k as int]));
                    }
                    return fail("duplicate output", entry.span);
                }
            },
        }
        k += 1;
    }
    assert(es@.subrange(0, k as int) =~= es@);
    let mut names: Vec<String> = Vec::new();
    let mut o: usize = 0;
    assert(crate::text::string_views(names@) =~= Seq::<Seq<char>>::empty());
    while o < outputs.len()
        invariant
            crate::text::strictly_sorted(crate::text::string_views(names@)),
        decreases outputs.len() - o,
    {
        crate::text::insert_ordered(&mut names, outputs[o].0.clone());
        o += 1;
    }
    Ok((source, attribute, names))
}

/// The sources named by some packages.
pub open spec fn surface_sources(v: Seq<(String, SurfacePackage)>) -> Seq<Seq<char>> {
    v.map_values(|e: (String, SurfacePackage)| e.1.source@)
}

/// The sources named by some package nodes.
pub open spec fn child_sources(nodes: Seq<Node>) -> Seq<Seq<char>> {
    nodes.map_values(|n: Node| package_source(n))
}

/// Keys are distinct exactly when their names have no duplicates.
proof fn lemma_keys_no_duplicates<V>(v: Seq<(String, V)>)
    ensures
        keys_distinct(keyed(v)) <==> string_keys(v).no_duplicates(),
        forall|q: Seq<char>| #[trigger] has_key(keyed(v), q) <==> string_keys(v).contains(q),
{
    assert forall|q: Seq<char>| #[trigger] has_key(keyed(v), q) <==> string_keys(v).contains(q) by {
        if has_key(keyed(v), q) {
            let k = choose|k: int| 0 <= k < keyed(v).len() && keyed(v)[k].0 == q;
            assert(string_keys(v)[k] == q);
        }
        if string_keys(v).contains(q) {
            let k = choose|k: int| 0 <= k < string_keys(v).len() && string_keys(v)[k] == q;
            assert(keyed(v)[k].0 == q);
        }
    }
    if keys_distinct(keyed(v)) {
        assert forall|a: int, b: int| 0 <= a < string_keys(v).len() && 0 <= b < string_keys(v).len() && a != b
            implies string_keys(v)[a] != string_keys(v)[b] by {
            if a < b {
                assert(keyed(v)[a].0 != keyed(v)[b].0);
            } else {
                assert(keyed(v)[b].0 != keyed(v)[a].0);
            }
        }
    }
    if string_keys(v).no_duplicates() {
        assert forall|a: int, b: int| 0 <= a < b < keyed(v).len() implies keyed(v)[a].0 != keyed(v)[b].0 by {
            assert(string_keys(v)[a] != string_keys(v)[b]);
        }
    }
}

/// Reads a `packages` node: each package's name, source, attribute and outputs.
fn read_packages(tree: &Tree, node: &Node, out: &mut Vec<(String, SurfacePackage)>) -> (r: Result<(), ManifestError>)
    requires
        keys_distinct(keyed(old(out)@)),
        surface_outputs_sorted(old(out)@),
    ensures
        keys_distinct(keyed(final(out)@)),
        surface_outputs_sorted(final(out)@),
        r is Ok <==> packages_node_ok(*tree, *node) && (string_keys(old(out)@) + node_names(
            block_nodes(*tree, *node),
        )).no_duplicates(),
        r is Ok ==> string_keys(final(out)@) == string_keys(old(out)@) + node_names(block_nodes(*tree, *node)),
        r is Ok ==> surface_sources(final(out)@) == surface_sources(old(out)@) + child_sources(
            block_nodes(*tree, *node),
        ),
        r is Ok ==> forall|q: Seq<char>|
            #[trigger] has_key(keyed(final(out)@), q) <==> has_key(keyed(old(out)@), q) || node_names(
                block_nodes(*tree, *node),
            ).contains(q),
{
    let ghost k0 = string_keys(out@);
    let ghost s0 = surface_sources(out@);
    proof {
        lemma_keys_no_duplicates(out@);
    }
    no_entries(node)?;
    let empty: Vec<Node> = Vec::new();
    let children = nodes_of(tree, node, &empty);
    let ghost all = k0 + node_names(children@);
    let mut i: usize = 0;
    assert(node_names(children@.subrange(0, 0)) =~= Seq::<Seq<char>>::empty());
    assert(child_sources(children@.subrange(0, 0)) =~= Seq::<Seq<char>>::empty());
    assert(k0 + Seq::<Seq<char>>::empty() =~= k0);
    assert(s0 + Seq::<Seq<char>>::empty() =~= s0);
    while i < children.len()
        invariant
            children@ == block_nodes(*tree, *node),
            node.entries@.len() == 0,
            all == k0 + node_names(children@),
            k0 == string_keys(old(out)@),
            s0 == surface_sources(old(out)@),
            keys_distinct(keyed(out@)),
            surface_outputs_sorted(out@),
            i <= children@.len(),
            forall|j: int| 0 <= j < i ==> package_child_ok(#[trigger] children@[j]),
            string_keys(out@) == k0 + node_names(children@.subrange(0, i as int)),
            surface_sources(out@) == s0 + child_sources(children@.subrange(0, i as int)),
        decreases children.len() - i,
    {
        let child = &children[i];
        let ghost before = out@;
        proof {
            lemma_keys_no_duplicates(out@);
        }
        assert(node_names(children@.subrange(0, i + 1)) =~= node_names(children@.subrange(0, i as int)).push(
            child.name@,
        ));
        assert(child_sources(children@.subrange(0, i + 1)) =~= child_sources(children@.subrange(0, i as int)).push(
            package_source(*child),
        ));
        assert(all.subrange(0, k0.len() + i + 1) =~= k0 + node_names(children@.subrange(0, i + 1)));
        no_children(child)?;
        let (source, attribute, names) = read_package_entries(child)?;
        assert(package_child_ok(*child));
        let pkg = SurfacePackage {
            source: match source {
                Some(s) => s,
                None => "default".to_owned(),
            },
            attribute: match attribute {
                Some(a) => a,
                None => child.name.clone(),
            },
            outputs: names,
        };
        assert(pkg.source@ == package_source(*child));
        let ghost pv = pkg;
        let replaced = put(out, child.name.clone(), pkg);
        assert forall|j: int| 0 <= j < out@.len() implies crate::text::strictly_sorted(
            string_views((#[trigger] out@[j]).1.outputs@),
        ) by {
            if out@[j].1 != pv {
                let m = choose|m: int| 0 <= m < before.len() && before[m] == out@[j];
                assert(crate::text::strictly_sorted(string_views(before[m].1.outputs@)));
            }
        }
        if replaced {
            proof {
                assert(all.subrange(0, k0.len() + i) =~= string_keys(before));
                assert(string_keys(before).contains(child.name@));
                let m = choose|m: int| 0 <= m < string_keys(before).len() && string_keys(before)[m] == child.name@;
                assert(all.subrange(0, k0.len() + i)[m] == all[m]);
                assert(all[m] == child.name@);
                assert(node_names(children@)[i as int] == child.name@);
                assert(all[k0.len() + i] == child.name@);
                assert(m < k0.len() + i);
                assert(!all.no_duplicates());
            }
            return fail("duplicate package", child.span);
        }
        assert(string_keys(out@) =~= string_keys(before).push(child.name@));
        assert(surface_sources(out@) =~= surface_sources(before).push(package_source(*child)));
        i += 1;
    }
    assert(children@.subrange(0, i as int) =~= children@);
    proof {
        lemma_keys_no_duplicates(out@);
        lemma_concat_contains(k0, node_names(children@));
    }
    Ok(())
}

/// Reads an `env` node: one variable per child, its template as the one argument.
fn read_env(tree: &Tree, node: &Node, out: &mut Vec<(String, String)>) -> (r: Result<(), ManifestError>)
    requires
        keys_distinct(keyed(old(out)@)),
    ensures
        keys_distinct(keyed(final(out)@)),
        r is Ok <==> env_node_ok(*tree, *node),
        r is Ok ==> forall|q: Seq<char>|
            #[trigger] has_key(keyed(final(out)@), q) <==> has_key(keyed(old(out)@), q) || node_names(
                block_nodes(*tree, *node),
            ).contains(q),
{
    no_entries(node)?;
    let empty: Vec<Node> = Vec::new();
    let children = nodes_of(tree, node, &empty);
    let ghost start = keyed(out@);
    let mut i: usize = 0;
    assert(node_names(children@.subrange(0, 0)) =~= Seq::<Seq<char>>::empty());
    while i < children.len()
        invariant
            keys_distinct(keyed(out@)),
            children@ == block_nodes(*tree, *node),
            node.entries@.len() == 0,
            forall|j: int|
                0 <= j < i ==> (#[trigger] children@[j]).children is None && text_argument_ok(children@[j]),
            i <= children@.len(),
            forall|q: Seq<char>|
                #[trigger] has_key(keyed(out@), q) <==> has_key(start, q) || node_names(
                    children@.subrange(0, i as int),
                ).contains(q),
        decreases children.len() - i,
    {
        let child = &children[i];
        assert(node_names(children@.subrange(0, i + 1)) =~= node_names(children@.subrange(0, i as int)).push(
            child.name@,
        ));
        proof {
            lemma_push_contains(node_names(children@.subrange(0, i as int)), child.name@);
        }
        no_children(child)?;
        let value = text_argument(child)?;
        put(out, child.name.clone(), value.clone());
        i += 1;
    }
    assert(children@.subrange(0, i as int) =~= children@);
    Ok(())
}

/// Reads a `caches` node: the `default` property, and one URL per child.
fn read_caches(tree: &Tree, node: &Node, caches: &mut Vec<String>, default_cache: &mut Option<bool>) -> (r:
    Result<(), ManifestError>)
    ensures
        r is Ok <==> caches_node_ok(*tree, *node),
        r is Ok ==> string_views(final(caches)@) == string_views(old(caches)@) + named_urls(
            block_nodes(*tree, *node),
        ),
        r is Ok ==> *final(default_cache) == match entries_flag(node.entries@) {
            Some(b) => Some(b),
            None => *old(default_cache),
        },
{
    let mut k: usize = 0;
    assert(node.entries@.subrange(0, 0) =~= Seq::<Entry>::empty());
    while k < node.entries.len()
        invariant
            k <= node.entries@.len(),
            caches@ == old(caches)@,
            forall|j: int|
                0 <= j < k ==> ((#[trigger] node.entries@[j]).name matches Some(n) && n@ == "default"@
                    && node.entries@[j].value is Bool),
            *default_cache == match entries_flag(node.entries@.subrange(0, k as int)) {
                Some(b) => Some(b),
                None => *old(default_cache),
            },
        decreases node.entries.len() - k,
    {
        let entry = &node.entries[k];
        assert(node.entries@.subrange(0, k + 1).drop_last() =~= node.entries@.subrange(0, k as int));
        assert(node.entries@.subrange(0, k + 1).last() == *entry);
        match &entry.name {
            Some(name) => {
                if str_eq(name.as_str(), "default") {
                    match entry.value {
                        Value::Bool(b) => {
                            *default_cache = Some(b);
                        },
                        _ => {
                            return fail("expected boolean", entry.span);
                        },
                    }
                } else {
                    return fail("invalid property", entry.span);
                }
            },
            None => {
                return fail("unexpected argument", entry.span);
            },
        }
        k += 1;
    }
    assert(node.entries@.subrange(0, k as int) =~= node.entries@);
    let empty: Vec<Node> = Vec::new();
    let children = nodes_of(tree, node, &empty);
    let ghost before = string_views(caches@);
    let mut i: usize = 0;
    assert(children@.subrange(0, 0) =~= Seq::<Node>::empty());
    assert(before + Seq::<Seq<char>>::empty() =~= before);
    while i < children.len()
        invariant
            i <= children@.len(),
            children@ == block_nodes(*tree, *node),
            forall|j: int|
                0 <= j < node.entries@.len() ==> ((#[trigger] node.entries@[j]).name matches Some(n) && n@
                    == "default"@ && node.entries@[j].value is Bool),
            forall|j: int|
                0 <= j < i ==> {
                    let c = #[trigger] children@[j];
                    &&& c.entries@.len() == 0
                    &&& c.children is None
                    &&& url_parse(c.name@) is Ok
                },
            string_views(caches@) == before + named_urls(children@.subrange(0, i as int)),
        decreases children.len() - i,
    {
        let child = &children[i];
        assert(children@.subrange(0, i + 1).drop_last() =~= children@.subrange(0, i as int));
        assert(children@.subrange(0, i + 1).last() == *child);
        no_entries(child)?;
        no_children(child)?;
        match parse_url(child.name.as_str()) {
            Ok(u) => {
                let ghost pre = string_views(caches@);
                caches.push(u);
                assert(string_views(caches@) =~= pre.push(caches@[caches@.len() - 1]@));
                assert(string_views(caches@) =~= before + named_urls(children@.subrange(0, i + 1)));
            },
            Err(m) => {
                return Err(ManifestError { message: m, span: Some(child.name_span) });
            },
        }
        i += 1;
    }
    assert(children@.subrange(0, i as int) =~= children@);
    Ok(())
}

/// Reads a `hydra <name>` node into a named jobset.
fn read_hydra(tree: &Tree, node: &Node) -> (r: Result<(String, Jobset), ManifestError>)
    ensures
        r is Ok <==> hydra_node_ok(*tree, *node),
        r matches Ok(p) ==> p.0@ == entry_text(node.entries@[0]),
{
    proof {
        reveal_strlit("base");
        reveal_strlit("project");
        reveal_strlit("jobset");
        reveal_strlit("job");
    }
    let name = text_argument(node)?;
    let name_span = node.entries[0].span;
    let mut base: Option<&String> = None;
    let mut project: Option<&String> = None;
    let mut jobset: Option<&String> = None;
    let mut job: Option<&String> = None;
    let empty: Vec<Node> = Vec::new();
    let children = nodes_of(tree, node, &empty);
    let mut i: usize = 0;
    while i < children.len()
        invariant
            children@ == block_nodes(*tree, *node),
            text_argument_ok(*node),
            "base"@.len() == 4 && "project"@.len() == 7 && "jobset"@.len() == 6 && "job"@.len() == 3,
            i <= children@.len(),
            forall|j: int|
                0 <= j < i ==> {
                    let c = #[trigger] children@[j];
                    &&& c.children is None
                    &&& hydra_field(c.name@)
                    &&& text_argument_ok(c)
                },
            base is Some <==> has_field(children@.subrange(0, i as int), "base"@),
            project is Some <==> has_field(children@.subrange(0, i as int), "project"@),
            jobset is Some <==> has_field(children@.subrange(0, i as int), "jobset"@),
        decreases children.len() - i,
    {
        let child = &children[i];
        proof {
            let pre = children@.subrange(0, i as int);
            let post = children@.subrange(0, i + 1);
            assert forall|n: Seq<char>| #[trigger] has_field(post, n) <==> (has_field(pre, n) || child.name@
                == n) by {
                if has_field(post, n) {
                    let k = choose|k: int| 0 <= k < post.len() && (#[trigger] post[k]).name@ == n;
                    if k < i {
                        assert(pre[k] == post[k]);
                    }
                }
                if has_field(pre, n) {
                    let k = choose|k: int| 0 <= k < pre.len() && (#[trigger] pre[k]).name@ == n;
                    assert(post[k] == pre[k]);
                }
                if child.name@ == n {
                    assert(post[i as int] == *child);
                }
            }
        }
        no_children(child)?;
        if str_eq(child.name.as_str(), "base") {
            base = Some(text_argument(child)?);
        } else if str_eq(child.name.as_str(), "project") {
            project = Some(text_argument(child)?);
        } else if str_eq(child.name.as_str(), "jobset") {
            jobset = Some(text_argument(child)?);
        } else if str_eq(child.name.as_str(), "job") {
            job = Some(text_argument(child)?);
        } else {
            return fail("invalid field", name_span);
        }
        i += 1;
    }
    assert(children@.subrange(0, i as int) =~= children@);
    let base = match base {
        Some(b) => b.clone(),
        None => {
            return fail("missing base", node.span);
        },
    };
    let project = match project {
        Some(p) => p.clone(),
        None => {
            return fail("missing project", node.span);
        },
    };
    let jobset = match jobset {
        Some(j) => j.clone(),
        None => {
            return fail("missing jobset", node.span);
        },
    };
    let job = match job {
        Some(j) => j.clone(),
        None => "{attribute}.{system}".to_owned(),
    };
    Ok((name.clone(), Jobset { base, project, jobset, job }))
}

/// A `system <predicate> { ... }` block.
#[derive(Debug)]
pub struct SystemBlock {
    pub predicate: SystemPredicate,
    pub surface: Surface,
}

/// Reads one block. At the top level (`top`), `systems` nodes add to `systems` and
/// `system` nodes to `blocks`; elsewhere they are invalid.
fn read_block(
    tree: &Tree,
    doc: usize,
    top: bool,
    systems: &mut Vec<System>,
    blocks: &mut Vec<SystemBlock>,
    depth: usize,
) -> (r: Result<Surface, ManifestError>)
    requires
        doc < tree.docs@.len(),
        top ==> depth > 0,
        forall|i: int| 0 <= i < old(blocks)@.len() ==> (#[trigger] old(blocks)@[i]).surface.wf(),
    ensures
        r is Ok <==> block_accepted(*tree, tree.docs@[doc as int]@, top),
        r matches Ok(s) ==> surface_sources(s.packages@) == nodes_sources(*tree, tree.docs@[doc as int]@),
        r matches Ok(s) ==> string_keys(s.sources@) == hydra_names(tree.docs@[doc as int]@),
        r matches Ok(s) ==> s.wf(),
        forall|i: int| 0 <= i < final(blocks)@.len() ==> (#[trigger] final(blocks)@[i]).surface.wf(),
        r is Ok && top ==> final(systems)@ == old(systems)@ + listed_systems(*tree, tree.docs@[doc as int]@),
        r matches Ok(s) ==> s.default_cache == nodes_flag(tree.docs@[doc as int]@),
        r matches Ok(s) ==> string_views(s.caches@) == nodes_caches(*tree, tree.docs@[doc as int]@),
        r matches Ok(s) ==> forall|q: Seq<char>|
            #[trigger] has_key(keyed(s.packages@), q) <==> nodes_packages(*tree, tree.docs@[doc as int]@).contains(q),
        r matches Ok(s) ==> forall|q: Seq<char>|
            #[trigger] has_key(keyed(s.env@), q) <==> nodes_env(*tree, tree.docs@[doc as int]@).contains(q),
        r is Ok && top ==> final(blocks)@.subrange(0, old(blocks)@.len() as int) == old(blocks)@
            && blocks_read(
            *tree,
            final(blocks)@.subrange(old(blocks)@.len() as int, final(blocks)@.len() as int),
            system_nodes(*tree, tree.docs@[doc as int]@),
        ),
    decreases depth,
{
    let mut surface = Surface {
        packages: Vec::new(),
        env: Vec::new(),
        caches: Vec::new(),
        default_cache: None,
        sources: Vec::new(),
    };
    assert(keyed(surface.packages@) =~= Seq::<(Seq<char>, SurfacePackage)>::empty());
    assert(keyed(surface.env@) =~= Seq::<(Seq<char>, String)>::empty());
    assert(keyed(surface.sources@) =~= Seq::<(Seq<char>, Jobset)>::empty());
    let nodes = &tree.docs[doc];
    let ghost sys0 = systems@;
    let ghost blocks0 = blocks@;
    proof {
        reveal_strlit("system");
        reveal_strlit("systems");
        reveal_strlit("packages");
        reveal_strlit("env");
        reveal_strlit("caches");
        reveal_strlit("hydra");
    }
    let mut i: usize = 0;
    assert(nodes@.subrange(0, 0) =~= Seq::<Node>::empty());
    assert(sys0 + Seq::<System>::empty() =~= sys0);
    assert(blocks@.subrange(0, blocks0.len() as int) =~= blocks0);
    assert(blocks@.subrange(blocks0.len() as int, blocks@.len() as int) =~= Seq::<SystemBlock>::empty());
    assert(string_views(surface.caches@) =~= Seq::<Seq<char>>::empty());
    assert(nodes_packages(*tree, nodes@.subrange(0, 0)) =~= Seq::<Seq<char>>::empty());
    assert(nodes_env(*tree, nodes@.subrange(0, 0)) =~= Seq::<Seq<char>>::empty());
    assert(nodes_sources(*tree, nodes@.subrange(0, 0)) =~= Seq::<Seq<char>>::empty());
    assert(hydra_names(nodes@.subrange(0, 0)) =~= Seq::<Seq<char>>::empty());
    assert(string_keys(surface.packages@) =~= Seq::<Seq<char>>::empty());
    assert(surface_sources(surface.packages@) =~= Seq::<Seq<char>>::empty());
    assert(string_keys(surface.sources@) =~= Seq::<Seq<char>>::empty());
    while i < nodes.len()
        invariant
            nodes@ == tree.docs@[doc as int]@,
            doc < tree.docs@.len(),
            i <= nodes@.len(),
            top ==> depth > 0,
            forall|j: int| 0 <= j < i ==> node_ok(*tree, #[trigger] nodes@[j], top),
            string_keys(surface.packages@) == nodes_packages(*tree, nodes@.subrange(0, i as int)),
            surface_sources(surface.packages@) == nodes_sources(*tree, nodes@.subrange(0, i as int)),
            string_keys(surface.sources@) == hydra_names(nodes@.subrange(0, i as int)),
            top ==> systems@ == sys0 + listed_systems(*tree, nodes@.subrange(0, i as int)),
            "systems"@.len() == 7 && "packages"@.len() == 8 && "env"@.len() == 3 && "caches"@.len()
                == 6 && "hydra"@.len() == 5 && "system"@.len() == 6,
            "system"@[0] == 's' && "caches"@[0] == 'c',
            surface.wf(),
            surface.default_cache == nodes_flag(nodes@.subrange(0, i as int)),
            string_views(surface.caches@) == nodes_caches(*tree, nodes@.subrange(0, i as int)),
            forall|q: Seq<char>|
                #[trigger] has_key(keyed(surface.packages@), q) <==> nodes_packages(
                    *tree,
                    nodes@.subrange(0, i as int),
                ).contains(q),
            forall|q: Seq<char>|
                #[trigger] has_key(keyed(surface.env@), q) <==> nodes_env(
                    *tree,
                    nodes@.subrange(0, i as int),
                ).contains(q),
            top ==> blocks@.subrange(0, blocks0.len() as int) == blocks0 && blocks0.len() <= blocks@.len()
                && blocks_read(
                *tree,
                blocks@.subrange(blocks0.len() as int, blocks@.len() as int),
                system_nodes(*tree, nodes@.subrange(0, i as int)),
            ),
            forall|i: int| 0 <= i < blocks@.len() ==> (#[trigger] blocks@[i]).surface.wf(),
        decreases nodes.len() - i,
    {
        let node = &nodes[i];
        let name = node.name.as_str();
        let ghost before = systems@;
        let ghost blocks_before = blocks@;
        assert(nodes@.subrange(0, i + 1).drop_last() =~= nodes@.subrange(0, i as int));
        assert(nodes@.subrange(0, i + 1).last() == *node);
        let ghost pk_before = keyed(surface.packages@);
        let ghost np = nodes_packages(*tree, nodes@.subrange(0, i as int));
        let ghost ne = nodes_env(*tree, nodes@.subrange(0, i as int));
        let ghost env_before = keyed(surface.env@);
        let ghost sk_before = string_keys(surface.packages@);
        let ghost ss_before = surface_sources(surface.packages@);
        let ghost hk_before = string_keys(surface.sources@);
        let ghost ns = nodes_sources(*tree, nodes@.subrange(0, i as int));
        let ghost hn = hydra_names(nodes@.subrange(0, i as int));
        assert(nodes@[i as int] == *node);
        if str_eq(name, "packages") {
            assert(nodes_packages(*tree, nodes@.subrange(0, i + 1)) =~= np + node_names(
                block_nodes(*tree, *node),
            ));
            assert(nodes_sources(*tree, nodes@.subrange(0, i + 1)) =~= ns + child_sources(
                block_nodes(*tree, *node),
            ));
            match read_packages(tree, node, &mut surface.packages) {
                Ok(()) => {},
                Err(e) => {
                    proof {
                        lemma_block_rejected(*tree, nodes@, i as int, top);
                    }
                    return Err(e);
                },
            }
            proof {
                lemma_concat_contains(np, node_names(block_nodes(*tree, *node)));
            }
        } else if str_eq(name, "env") {
            match read_env(tree, node, &mut surface.env) {
                Ok(()) => {},
                Err(e) => {
                    proof {
                        lemma_block_rejected(*tree, nodes@, i as int, top);
                    }
                    return Err(e);
                },
            }
            proof {
                lemma_concat_contains(ne, node_names(block_nodes(*tree, *node)));
            }
        } else if str_eq(name, "caches") {
            match read_caches(tree, node, &mut surface.caches, &mut surface.default_cache) {
                Ok(()) => {},
                Err(e) => {
                    proof {
                        lemma_block_rejected(*tree, nodes@, i as int, top);
                    }
                    return Err(e);
                },
            }
        } else if str_eq(name, "hydra") {
            let (source_name, jobset) = match read_hydra(tree, node) {
                Ok(p) => p,
                Err(e) => {
                    proof {
                        lemma_block_rejected(*tree, nodes@, i as int, top);
                    }
                    return Err(e);
                },
            };
            assert(hydra_names(nodes@.subrange(0, i + 1)) =~= hn.push(source_name@));
            proof {
                lemma_keys_no_duplicates(surface.sources@);
            }
            if put(&mut surface.sources, source_name, jobset) {
                proof {
                    let m = choose|m: int| 0 <= m < hn.len() && hn[m] == entry_text(node.entries@[0]);
                    assert(hn.push(entry_text(node.entries@[0]))[m] == hn.push(entry_text(node.entries@[0]))[hn.len() as int]);
                    lemma_block_rejected(*tree, nodes@, i as int, top);
                }
                return fail("duplicate source", node.span);
            }
            assert(string_keys(surface.sources@) =~= hk_before.push(entry_text(node.entries@[0])));
        } else {
            if top {
                {
                    if str_eq(name, "systems") {
                        let empty: Vec<Node> = Vec::new();
                        let children = nodes_of(tree, node, &empty);
                        let mut k: usize = 0;
                        assert(children@.subrange(0, 0) =~= Seq::<Node>::empty());
                        assert(before + Seq::<System>::empty() =~= before);
                        while k < children.len()
                            invariant
                                forall|i: int|
                                    0 <= i < blocks@.len() ==> (#[trigger] blocks@[i]).surface.wf(),
                                k <= children@.len(),
                                systems@ == before + named_systems(children@.subrange(0, k as int)),
                                children@ == block_nodes(*tree, *node),
                                nodes@ == tree.docs@[doc as int]@,
                                doc < tree.docs@.len(),
                                nodes@[i as int] == *node,
                                i < nodes@.len(),
                                top,
                                node.name@ == "systems"@,
                                "systems"@.len() == 7 && "packages"@.len() == 8 && "env"@.len() == 3
                                    && "caches"@.len() == 6 && "hydra"@.len() == 5 && "system"@.len() == 6,
                                forall|j: int|
                                    0 <= j < k ==> {
                                        let c = #[trigger] children@[j];
                                        &&& c.entries@.len() == 0
                                        &&& c.children is None
                                        &&& crate::system::system_of(c.name@) is Some
                                    },
                            decreases children.len() - k,
                        {
                            let child = &children[k];
                            assert(children@[k as int] == *child);
                            let checked = match no_entries(child) {
                                Ok(()) => no_children(child),
                                Err(e) => Err(e),
                            };
                            match checked {
                                Ok(()) => {},
                                Err(e) => {
                                    proof {
                                        assert(!systems_node_ok(*tree, *node));
                                        lemma_block_rejected(*tree, nodes@, i as int, top);
                                    }
                                    return Err(e);
                                },
                            }
                            assert(children@.subrange(0, k + 1).drop_last() =~= children@.subrange(
                                0,
                                k as int,
                            ));
                            assert(children@.subrange(0, k + 1).last() == *child);
                            match System::from_str(child.name.as_str()) {
                                Ok(s) => {
                                    systems.push(s);
                                    assert(systems@ =~= before + named_systems(
                                        children@.subrange(0, k + 1),
                                    ));
                                },
                                Err(_) => {
                                    proof {
                                        assert(!systems_node_ok(*tree, *node));
                                        lemma_block_rejected(*tree, nodes@, i as int, top);
                                    }
                                    let mut m = "unsupported system: ".to_owned();
                                    push_str(&mut m, child.name.as_str());
                                    return Err(ManifestError { message: m, span: Some(child.name_span) });
                                },
                            }
                            k += 1;
                        }
                        assert(children@.subrange(0, k as int) =~= children@);
                        assert(systems@ =~= before + named_systems(block_nodes(*tree, *node)));
                        assert(systems_node_ok(*tree, *node));
                    } else if str_eq(name, "system") {
                        if node.entries.len() != 1 {
                            proof {
                                lemma_block_rejected(*tree, nodes@, i as int, top);
                            }
                            return fail("expected one argument", node.span);
                        }
                        let entry = &node.entries[0];
                        if entry.name.is_some() {
                            proof {
                                lemma_block_rejected(*tree, nodes@, i as int, top);
                            }
                            return fail("unexpected property", node.span);
                        }
                        let text = match text_of(entry) {
                            Ok(t) => t,
                            Err(e) => {
                                proof {
                                    lemma_block_rejected(*tree, nodes@, i as int, top);
                                }
                                return Err(e);
                            },
                        };
                        let predicate = match SystemPredicate::from_str(text.as_str()) {
                            Ok(p) => p,
                            Err(_) => {
                                proof {
                                    lemma_block_rejected(*tree, nodes@, i as int, top);
                                }
                                let mut m = "unsupported system: ".to_owned();
                                push_str(&mut m, text.as_str());
                                return Err(ManifestError { message: m, span: Some(entry.span) });
                            },
                        };
                        let b = match node.children {
                            Some(b) => if b < tree.docs.len() && depth > 0 {
                                b
                            } else {
                                proof {
                                    lemma_block_rejected(*tree, nodes@, i as int, top);
                                }
                                return fail("expected children", node.span);
                            },
                            None => {
                                proof {
                                    lemma_block_rejected(*tree, nodes@, i as int, top);
                                }
                                return fail("expected children", node.span);
                            },
                        };
                        let mut no_systems: Vec<System> = Vec::new();
                        let mut no_blocks: Vec<SystemBlock> = Vec::new();
                        let inner = read_block(tree, b, false, &mut no_systems, &mut no_blocks, depth - 1);
                        let surface = match inner {
                            Ok(s) => s,
                            Err(e) => {
                                proof {
                                    assert(!inner_block_ok(*tree, tree.docs@[b as int]@));
                                    lemma_block_rejected(*tree, nodes@, i as int, top);
                                }
                                return Err(e);
                            },
                        };
                        assert(inner_block_ok(*tree, tree.docs@[b as int]@));
                        assert(node_predicate(*node) == Some(predicate));
                        assert(block_nodes(*tree, *node) == tree.docs@[b as int]@);
                        blocks.push(SystemBlock { predicate, surface });
                        proof {
                            let sn = system_nodes(*tree, nodes@.subrange(0, i as int));
                            let bs = blocks@.subrange(blocks0.len() as int, blocks@.len() as int);
                            let bs0 = blocks_before.subrange(blocks0.len() as int, blocks_before.len() as int);
                            assert(bs =~= bs0.push(blocks@[blocks@.len() - 1]));
                            assert(blocks@.subrange(0, blocks0.len() as int) =~= blocks_before.subrange(
                                0,
                                blocks0.len() as int,
                            ));
                            assert(blocks_read(*tree, bs, sn.push((predicate, tree.docs@[b as int]@)))) by {
                                assert forall|k: int| 0 <= k < bs.len() implies {
                                    &&& (#[trigger] bs[k]).predicate == sn.push((predicate, tree.docs@[b as int]@))[k].0
                                    &&& bs[k].surface.default_cache == nodes_flag(sn.push((predicate, tree.docs@[b as int]@))[k].1)
                                    &&& string_views(bs[k].surface.caches@) == nodes_caches(*tree, sn.push((predicate, tree.docs@[b as int]@))[k].1)
                                    &&& forall|q: Seq<char>|
                                        #[trigger] has_key(keyed(bs[k].surface.packages@), q) <==> nodes_packages(
                                            *tree,
                                            sn.push((predicate, tree.docs@[b as int]@))[k].1,
                                        ).contains(q)
                                    &&& forall|q: Seq<char>|
                                        #[trigger] has_key(keyed(bs[k].surface.env@), q) <==> nodes_env(
                                            *tree,
                                            sn.push((predicate, tree.docs@[b as int]@))[k].1,
                                        ).contains(q)
                                    &&& surface_sources(bs[k].surface.packages@) == nodes_sources(
                                        *tree,
                                        sn.push((predicate, tree.docs@[b as int]@))[k].1,
                                    )
                                    &&& string_keys(bs[k].surface.sources@) == hydra_names(
                                        sn.push((predicate, tree.docs@[b as int]@))[k].1,
                                    )
                                } by {
                                    if k < bs0.len() {
                                        assert(bs[k] == bs0[k]);
                                    }
                                }
                            }
                        }
                    } else {
                        proof {
                            lemma_block_rejected(*tree, nodes@, i as int, top);
                        }
                        return fail("invalid node", node.name_span);
                    }
                }
            } else {
                proof {
                    lemma_block_rejected(*tree, nodes@, i as int, top);
                }
                return fail("invalid node", node.name_span);
            }
        }
        assert(systems@ =~= sys0 + listed_systems(*tree, nodes@.subrange(0, i + 1)) || !top);
        proof {
            if node.name@ != "system"@ {
                assert(blocks@ == blocks_before);
            }
            if node.name@ != "env"@ {
                assert(nodes_env(*tree, nodes@.subrange(0, i + 1)) =~= ne + Seq::<Seq<char>>::empty());
                assert(keyed(surface.env@) == env_before);
            }
            if node.name@ != "packages"@ {
                assert(nodes_packages(*tree, nodes@.subrange(0, i + 1)) =~= np + Seq::<Seq<char>>::empty());
                assert(nodes_sources(*tree, nodes@.subrange(0, i + 1)) =~= ns + Seq::<Seq<char>>::empty());
                assert(keyed(surface.packages@) == pk_before);
                assert(surface.packages@ =~= surface.packages@);
            }
            if node.name@ != "hydra"@ {
                assert(hydra_names(nodes@.subrange(0, i + 1)) == hn);
            }
            assert(node_ok(*tree, nodes@[i as int], top));
        }
        i += 1;
    }
    assert(nodes@.subrange(0, i as int) =~= nodes@);
    proof {
        lemma_keys_no_duplicates(surface.packages@);
        lemma_keys_no_duplicates(surface.sources@);
    }
    Ok(surface)
}

/// Copies named jobsets.
fn copy_sources(v: &Vec<(String, Jobset)>) -> (r: Vec<(String, Jobset)>)
    ensures
        string_keys(r@) == string_keys(v@),
{
    let mut r: Vec<(String, Jobset)> = Vec::new();
    let mut i: usize = 0;
    while i < v.len()
        invariant
            i <= v@.len(),
            string_keys(r@) == string_keys(v@.subrange(0, i as int)),
        decreases v.len() - i,
    {
        let ghost before = string_keys(r@);
        r.push((v[i].0.clone(), v[i].1.duplicate()));
        assert(string_keys(r@) =~= before.push(v@[i as int].0@));
        assert(string_keys(v@.subrange(0, i + 1)) =~= string_keys(v@.subrange(0, i as int)).push(
            v@[i as int].0@,
        ));
        i += 1;
    }
    assert(v@.subrange(0, i as int) =~= v@);
    r
}

/// The names of named values.
pub open spec fn string_keys<V>(v: Seq<(String, V)>) -> Seq<Seq<char>> {
    v.map_values(|e: (String, V)| e.0@)
}

/// Distinct names.
proof fn lemma_keys_distinct<V>(v: Seq<(String, V)>, w: Seq<(String, V)>)
    requires
        string_keys(v) == string_keys(w),
        keys_distinct(keyed(v)),
    ensures
        keys_distinct(keyed(w)),
{
    assert(v.len() == string_keys(v).len() && w.len() == string_keys(w).len());
    assert forall|a: int, b: int| 0 <= a < b < keyed(w).len() implies keyed(w)[a].0 != keyed(w)[b].0 by {
        assert(string_keys(v)[a] == keyed(v)[a].0 && string_keys(w)[a] == keyed(w)[a].0);
        assert(string_keys(v)[b] == keyed(v)[b].0 && string_keys(w)[b] == keyed(w)[b].0);
    }
}

/// Adds the packages of a block, their sources looked up by name.
fn resolve_packages(
    surface: &Vec<(String, SurfacePackage)>,
    sources: &Vec<(String, Jobset)>,
    out: &mut Vec<(String, Package)>,
) -> (r: Result<(), ManifestError>)
    requires
        keys_distinct(keyed(old(out)@)),
        outputs_sorted(old(out)@),
        surface_outputs_sorted(surface@),
    ensures
        keys_distinct(keyed(final(out)@)),
        outputs_sorted(final(out)@),
        r is Ok <==> forall|j: int|
            0 <= j < surface@.len() ==> has_key(keyed(sources@), #[trigger] surface_sources(surface@)[j]),
        r is Ok ==> forall|q: Seq<char>|
            #[trigger] has_key(keyed(final(out)@), q) <==> has_key(keyed(old(out)@), q) || has_key(
                keyed(surface@),
                q,
            ),
{
    let ghost start = keyed(out@);
    let mut i: usize = 0;
    while i < surface.len()
        invariant
            forall|j: int|
                0 <= j < i ==> has_key(keyed(sources@), #[trigger] surface_sources(surface@)[j]),
            keys_distinct(keyed(out@)),
            outputs_sorted(out@),
            surface_outputs_sorted(surface@),
            i <= surface@.len(),
            forall|q: Seq<char>|
                #[trigger] has_key(keyed(out@), q) <==> has_key(start, q) || has_key(
                    keyed(surface@.subrange(0, i as int)),
                    q,
                ),
        decreases surface.len() - i,
    {
        let sp = &surface[i].1;
        assert(surface_sources(surface@)[i as int] == sp.source@);
        assert(keyed(surface@.subrange(0, i + 1)) =~= keyed(surface@.subrange(0, i as int)).push(
            (surface@[i as int].0@, surface@[i as int].1),
        ));
        assert forall|q: Seq<char>| #[trigger] has_key(keyed(surface@.subrange(0, i + 1)), q) <==> (
        has_key(keyed(surface@.subrange(0, i as int)), q) || q == surface@[i as int].0@) by {
            let pre = keyed(surface@.subrange(0, i as int));
            let post = keyed(surface@.subrange(0, i + 1));
            if has_key(post, q) && q != surface@[i as int].0@ {
                let k = choose|k: int| 0 <= k < post.len() && post[k].0 == q;
                assert(pre[k].0 == q);
            }
            if has_key(pre, q) {
                let k = choose|k: int| 0 <= k < pre.len() && pre[k].0 == q;
                assert(post[k].0 == q);
            }
            if q == surface@[i as int].0@ {
                assert(post[i as int].0 == q);
            }
        }
        let jobset = match find_key(sources, sp.source.as_str()) {
            Some(k) => {
                assert(keyed(sources@)[k as int].0 == sp.source@);
                sources[k].1.duplicate()
            },
            None => {
                let mut m = "source \"".to_owned();
                push_str(&mut m, sp.source.as_str());
                push_str(&mut m, "\" not found");
                return Err(ManifestError { message: m, span: None });
            },
        };
        let mut outputs: Vec<String> = Vec::new();
        assert(string_views(outputs@) =~= Seq::<Seq<char>>::empty());
        append_strings(&mut outputs, &sp.outputs);
        assert(string_views(outputs@) =~= string_views(sp.outputs@));
        assert(crate::text::strictly_sorted(string_views(surface@[i as int].1.outputs@)));
        let pkg = Package { attribute: sp.attribute.clone(), outputs, source: Source::Hydra(jobset) };
        let ghost before_put = out@;
        let ghost pv = pkg;
        put(out, surface[i].0.clone(), pkg);
        assert forall|j: int| 0 <= j < out@.len() implies crate::text::strictly_sorted(
            string_views((#[trigger] out@[j]).1.outputs@),
        ) by {
            if out@[j].1 != pv {
                let m = choose|m: int| 0 <= m < before_put.len() && before_put[m] == out@[j];
                assert(crate::text::strictly_sorted(string_views(before_put[m].1.outputs@)));
            }
        }
        i += 1;
    }
    assert(surface@.subrange(0, i as int) =~= surface@);
    Ok(())
}

/// Where a new key `k` belongs among the ascending keys of `v`.
fn key_position(v: &Vec<(String, String)>, k: &String) -> (r: usize)
    requires
        !string_keys(v@).contains(k@),
    ensures
        r <= v@.len(),
        forall|j: int| 0 <= j < r ==> crate::text::seq_less(#[trigger] string_keys(v@)[j], k@),
        r < v@.len() ==> crate::text::seq_less(k@, string_keys(v@)[r as int]),
{
    let ghost w = string_keys(v@);
    let mut i: usize = 0;
    while i < v.len()
        invariant
            i <= v@.len(),
            w == string_keys(v@),
            !w.contains(k@),
            forall|j: int| 0 <= j < i ==> crate::text::seq_less(#[trigger] w[j], k@),
        decreases v.len() - i,
    {
        assert(w[i as int] == v@[i as int].0@);
        if crate::text::str_less(k.as_str(), v[i].0.as_str()) {
            return i;
        }
        proof {
            crate::text::lemma_less_total(w[i as int], k@);
        }
        i += 1;
    }
    i
}

/// Sets variable `k` to `x`, replacing an earlier value; keys stay distinct and in
/// ascending order.
fn put_ordered(v: &mut Vec<(String, String)>, k: String, x: String)
    requires
        keys_distinct(keyed(old(v)@)),
        crate::text::strictly_sorted(string_keys(old(v)@)),
    ensures
        keys_distinct(keyed(final(v)@)),
        crate::text::strictly_sorted(string_keys(final(v)@)),
        forall|q: Seq<char>| #[trigger] has_key(keyed(final(v)@), q) <==> has_key(keyed(old(v)@), q) || q == k@,
{
    let ghost kv = k@;
    let ghost before = v@;
    proof {
        lemma_keys_no_duplicates(v@);
    }
    match find_key(v, k.as_str()) {
        Some(i) => {
            let mut e = v.remove(i);
            e.1 = x;
            v.insert(i, e);
            assert(string_keys(v@) =~= string_keys(before));
            assert(keyed(v@) =~= keyed(before).update(i as int, (kv, keyed(v@)[i as int].1)));
            assert forall|a: int, b: int| 0 <= a < b < keyed(v@).len() implies keyed(v@)[a].0
                != keyed(v@)[b].0 by {
                assert(keyed(v@)[a].0 == keyed(before)[a].0 && keyed(v@)[b].0 == keyed(before)[b].0);
            }
            proof {
                lemma_keys_no_duplicates(v@);
                lemma_keys_no_duplicates(before);
            }
            assert(keyed(before)[i as int].0 == kv);
        },
        None => {
            let p = key_position(v, &k);
            let ghost w = string_keys(before);
            let ghost pp = p as int;
            v.insert(p, (k, x));
            let ghost w2 = string_keys(v@);
            assert(w2 =~= w.insert(pp, kv));
            assert forall|a: int, b: int| 0 <= a < b < w2.len() implies crate::text::seq_less(w2[a], w2[b]) by {
                if b < pp {
                } else if b == pp {
                    assert(w2[a] == w[a]);
                } else if a == pp {
                    assert(w2[b] == w[b - 1]);
                    if b - 1 > pp {
                        crate::text::lemma_less_transitive(kv, w[pp], w[b - 1]);
                    }
                } else if a < pp {
                    assert(w2[a] == w[a] && w2[b] == w[b - 1]);
                } else {
                    assert(w2[a] == w[a - 1] && w2[b] == w[b - 1]);
                }
            }
            assert forall|a: int, b: int| 0 <= a < w2.len() && 0 <= b < w2.len() && a != b implies w2[a]
                != w2[b] by {
                if a < b {
                    crate::text::lemma_less_irreflexive(w2[a]);
                } else {
                    crate::text::lemma_less_irreflexive(w2[b]);
                }
            }
            proof {
                lemma_keys_no_duplicates(v@);
                lemma_concat_contains(w, seq![kv]);
                assert forall|q: Seq<char>| #[trigger] w2.contains(q) <==> (w.contains(q) || q == kv) by {
                    if w2.contains(q) {
                        let m = choose|m: int| 0 <= m < w2.len() && w2[m] == q;
                        if m < pp {
                            assert(w[m] == q);
                        } else if m > pp {
                            assert(w[m - 1] == q);
                        }
                    }
                    if w.contains(q) {
                        let m = choose|m: int| 0 <= m < w.len() && w[m] == q;
                        if m < pp {
                            assert(w2[m] == q);
                        } else {
                            assert(w2[m + 1] == q);
                        }
                    }
                    if q == kv {
                        assert(w2[pp] == q);
                    }
                }
            }
        },
    }
}

/// Adds the variables of a block, replacing earlier ones of the same name.
fn merge_env(from: &Vec<(String, String)>, out: &mut Vec<(String, String)>)
    requires
        keys_distinct(keyed(old(out)@)),
        crate::text::strictly_sorted(string_keys(old(out)@)),
    ensures
        keys_distinct(keyed(final(out)@)),
        crate::text::strictly_sorted(string_keys(final(out)@)),
        forall|q: Seq<char>|
            #[trigger] has_key(keyed(final(out)@), q) <==> has_key(keyed(old(out)@), q) || has_key(
                keyed(from@),
                q,
            ),
{
    let ghost start = keyed(out@);
    let mut i: usize = 0;
    while i < from.len()
        invariant
            keys_distinct(keyed(out@)),
            crate::text::strictly_sorted(string_keys(out@)),
            i <= from@.len(),
            forall|q: Seq<char>|
                #[trigger] has_key(keyed(out@), q) <==> has_key(start, q) || has_key(
                    keyed(from@.subrange(0, i as int)),
                    q,
                ),
        decreases from.len() - i,
    {
        assert forall|q: Seq<char>| #[trigger] has_key(keyed(from@.subrange(0, i + 1)), q) <==> (
        has_key(keyed(from@.subrange(0, i as int)), q) || q == from@[i as int].0@) by {
            let pre = keyed(from@.subrange(0, i as int));
            let post = keyed(from@.subrange(0, i + 1));
            if has_key(post, q) && q != from@[i as int].0@ {
                let k = choose|k: int| 0 <= k < post.len() && post[k].0 == q;
                assert(pre[k].0 == q);
            }
            if has_key(pre, q) {
                let k = choose|k: int| 0 <= k < pre.len() && pre[k].0 == q;
                assert(post[k].0 == q);
            }
            if q == from@[i as int].0@ {
                assert(post[i as int].0 == q);
            }
        }
        put_ordered(out, from[i].0.clone(), from[i].1.clone());
        i += 1;
    }
    assert(from@.subrange(0, i as int) =~= from@);
}

/// Appends copies of `src` to `dst`.
fn append_strings(dst: &mut Vec<String>, src: &Vec<String>)
    ensures
        string_views(final(dst)@) == string_views(old(dst)@) + string_views(src@),
{
    let ghost start = string_views(dst@);
    let mut c: usize = 0;
    assert(string_views(src@).subrange(0, 0) =~= Seq::<Seq<char>>::empty());
    assert(start + Seq::<Seq<char>>::empty() =~= start);
    while c < src.len()
        invariant
            c <= src@.len(),
            string_views(dst@) == start + string_views(src@).subrange(0, c as int),
        decreases src.len() - c,
    {
        let ghost pre = string_views(dst@);
        dst.push(src[c].clone());
        assert(string_views(dst@) =~= pre.push(src@[c as int]@));
        assert(string_views(src@).subrange(0, c + 1) =~= string_views(src@).subrange(0, c as int).push(
            src@[c as int]@,
        ));
        c += 1;
    }
    assert(string_views(src@).subrange(0, c as int) =~= string_views(src@));
}

/// Whether the public cache is used by a platform: the last setting among the blocks that
/// admit it, else `init`.
pub open spec fn block_flag(bs: Seq<(SystemPredicate, Seq<Node>)>, s: System, init: bool) -> bool
    decreases bs.len(),
{
    if bs.len() == 0 {
        init
    } else {
        let prev = block_flag(bs.drop_last(), s, init);
        if crate::system::admits(bs.last().0, s) {
            match nodes_flag(bs.last().1) {
                Some(b) => b,
                None => prev,
            }
        } else {
            prev
        }
    }
}

/// The caches that the blocks admitting a platform add, in order.
pub open spec fn block_caches(tree: Tree, bs: Seq<(SystemPredicate, Seq<Node>)>, s: System) -> Seq<Seq<char>>
    decreases bs.len(),
{
    if bs.len() == 0 {
        seq![]
    } else {
        block_caches(tree, bs.drop_last(), s) + if crate::system::admits(bs.last().0, s) {
            nodes_caches(tree, bs.last().1)
        } else {
            seq![]
        }
    }
}

/// The caches of platform `s`: the public cache unless the last `default` setting
/// that applies turns it off, then the top level's caches, then those of each
/// `system` block that admits `s`.
pub open spec fn system_caches(tree: Tree, s: System) -> Seq<Seq<char>> {
    let top = tree.docs@[0]@;
    let bs = system_nodes(tree, top);
    let first = match nodes_flag(top) {
        Some(b) => b,
        None => true,
    };
    let public = match url_parse("https://cache.nixos.org"@) {
        Ok(u) => seq![u],
        Err(_) => seq![],
    };
    (if block_flag(bs, s, first) {
        public
    } else {
        seq![]
    }) + nodes_caches(tree, top) + block_caches(tree, bs, s)
}

/// The package names that the blocks admitting a platform add, in order.
pub open spec fn block_packages(tree: Tree, bs: Seq<(SystemPredicate, Seq<Node>)>, s: System) -> Seq<
    Seq<char>,
>
    decreases bs.len(),
{
    if bs.len() == 0 {
        seq![]
    } else {
        block_packages(tree, bs.drop_last(), s) + if crate::system::admits(bs.last().0, s) {
            nodes_packages(tree, bs.last().1)
        } else {
            seq![]
        }
    }
}

/// The package names of platform `s`: those of the top level and of each `system`
/// block that admits `s`.
pub open spec fn system_packages(tree: Tree, s: System) -> Seq<Seq<char>> {
    let top = tree.docs@[0]@;
    nodes_packages(tree, top) + block_packages(tree, system_nodes(tree, top), s)
}

/// The variable names that the blocks admitting a platform add, in order.
pub open spec fn block_env(tree: Tree, bs: Seq<(SystemPredicate, Seq<Node>)>, s: System) -> Seq<Seq<char>>
    decreases bs.len(),
{
    if bs.len() == 0 {
        seq![]
    } else {
        block_env(tree, bs.drop_last(), s) + if crate::system::admits(bs.last().0, s) {
            nodes_env(tree, bs.last().1)
        } else {
            seq![]
        }
    }
}

/// The variable names of platform `s`: those of the top level and of each `system`
/// block that admits `s`.
pub open spec fn system_env(tree: Tree, s: System) -> Seq<Seq<char>> {
    let top = tree.docs@[0]@;
    nodes_env(tree, top) + block_env(tree, system_nodes(tree, top), s)
}

/// Each source is `default` or one of `names`.
pub open spec fn sources_found(srcs: Seq<Seq<char>>, names: Seq<Seq<char>>) -> bool {
    forall|i: int| 0 <= i < srcs.len() ==> (#[trigger] srcs[i]) == "default"@ || names.contains(srcs[i])
}

/// The sources of the `system` block `k` of the top level are found among the top
/// level's and its own.
pub open spec fn block_sources_found(tree: Tree, k: int) -> bool {
    let top = tree.docs@[0]@;
    let bs = system_nodes(tree, top);
    sources_found(nodes_sources(tree, bs[k].1), hydra_names(top) + hydra_names(bs[k].1))
}

/// The manifest grammar: a non-empty document whose top level is well formed, whose
/// packages name known sources, and whose `system` blocks that apply to a platform of
/// the manifest name sources of the top level or their own.
pub open spec fn manifest_accepts(tree: Tree) -> bool {
    &&& tree.docs@.len() > 0
    &&& block_accepted(tree, tree.docs@[0]@, true)
    &&& sources_found(nodes_sources(tree, tree.docs@[0]@), hydra_names(tree.docs@[0]@))
    &&& forall|k: int, s: System|
        0 <= k < system_nodes(tree, tree.docs@[0]@).len() && manifest_systems(tree).contains(s)
            && #[trigger] crate::system::admits(system_nodes(tree, tree.docs@[0]@)[k].0, s)
            ==> block_sources_found(tree, k)
}

/// Resolving sources against `keys` succeeds exactly when they are found among `names`.
proof fn lemma_found_iff(srcs: Seq<Seq<char>>, names: Seq<Seq<char>>, keys: Seq<(Seq<char>, Jobset)>)
    requires
        forall|q: Seq<char>| #[trigger] has_key(keys, q) <==> (names.contains(q) || q == "default"@),
    ensures
        (forall|j: int| 0 <= j < srcs.len() ==> has_key(keys, #[trigger] srcs[j])) <==> sources_found(
            srcs,
            names,
        ),
{
    if forall|j: int| 0 <= j < srcs.len() ==> has_key(keys, #[trigger] srcs[j]) {
        assert forall|i: int| 0 <= i < srcs.len() implies (#[trigger] srcs[i]) == "default"@ || names.contains(
            srcs[i],
        ) by {
            assert(has_key(keys, srcs[i]));
        }
    }
    if sources_found(srcs, names) {
        assert forall|j: int| 0 <= j < srcs.len() implies has_key(keys, #[trigger] srcs[j]) by {
            assert(srcs[j] == "default"@ || names.contains(srcs[j]));
        }
    }
}

/// Whether `v` holds `s`.
fn holds_system(v: &Vec<System>, s: System) -> (r: bool)
    ensures
        r == v@.contains(s),
{
    let mut i: usize = 0;
    while i < v.len()
        invariant
            i <= v@.len(),
            forall|j: int| 0 <= j < i ==> v@[j] != s,
        decreases v.len() - i,
    {
        if v[i] == s {
            return true;
        }
        i += 1;
    }
    false
}

impl Manifest {
    /// Reads a manifest. The top level may list `systems` (else `aarch64-darwin`,
    /// `aarch64-linux` and `x86_64-linux`); its packages, variables, caches and sources
    /// apply to every platform, and each `system <predicate>` block adds to the
    /// platforms it admits. The public cache comes first unless `caches default=false`.
    pub fn parse_tree(tree: &Tree) -> (r: Result<Manifest, ManifestError>)
        ensures
            r is Ok <==> manifest_accepts(*tree) && url_parse("https://cache.nixos.org"@) is Ok,
            r matches Ok(m) ==> m.wf() && m.systems@.len() > 0,
            r matches Ok(m) ==> forall|s: System|
                #[trigger] has_key(m.systems@, s) <==> manifest_systems(*tree).contains(s),
            r matches Ok(m) ==> forall|k: int|
                0 <= k < m.systems@.len() ==> string_views((#[trigger] m.systems@[k]).1.caches@)
                    == system_caches(*tree, m.systems@[k].0),
            r matches Ok(m) ==> forall|k: int, q: Seq<char>|
                0 <= k < m.systems@.len() ==> (#[trigger] has_key(packages_view(m.systems@[k].1), q)
                    <==> system_packages(*tree, m.systems@[k].0).contains(q)),
            r matches Ok(m) ==> forall|k: int|
                0 <= k < m.systems@.len() ==> outputs_sorted((#[trigger] m.systems@[k]).1.packages@),
            r matches Ok(m) ==> forall|k: int|
                0 <= k < m.systems@.len() ==> crate::text::strictly_sorted(
                    string_keys((#[trigger] m.systems@[k]).1.env@),
                ),
            r matches Ok(m) ==> forall|k: int, q: Seq<char>|
                0 <= k < m.systems@.len() ==> (#[trigger] has_key(keyed(m.systems@[k].1.env@), q)
                    <==> system_env(*tree, m.systems@[k].0).contains(q)),
    {
        if tree.docs.len() == 0 {
            return Err(ManifestError { message: "empty document".to_owned(), span: None });
        }
        let mut listed: Vec<System> = Vec::new();
        let mut blocks: Vec<SystemBlock> = Vec::new();
        let top = read_block(tree, 0, true, &mut listed, &mut blocks, 1)?;
        assert(listed@ =~= listed_systems(*tree, tree.docs@[0]@));
        if listed.len() == 0 {
            listed.push(System { arch: Arch::Aarch64, kernel: Kernel::Darwin });
            listed.push(System { arch: Arch::Aarch64, kernel: Kernel::Linux });
            listed.push(System { arch: Arch::X86_64, kernel: Kernel::Linux });
        }
        assert(listed@ =~= manifest_systems(*tree));
        let public_cache = match parse_url("https://cache.nixos.org") {
            Ok(u) => u,
            Err(m) => {
                return Err(ManifestError { message: m, span: None });
            },
        };
        let mut base_sources = copy_sources(&top.sources);
        proof {
            lemma_keys_distinct(top.sources@, base_sources@);
        }
        let ghost top_hn = hydra_names(tree.docs@[0]@);
        proof {
            lemma_keys_no_duplicates(base_sources@);
            lemma_keys_no_duplicates(top.sources@);
        }
        match find_key(&base_sources, "default") {
            None => match Source::default_source() {
                Source::Hydra(j) => {
                    put(&mut base_sources, "default".to_owned(), j);
                },
            },
            Some(d) => {
                assert(keyed(base_sources@)[d as int].0 == "default"@);
            },
        }
        assert forall|q: Seq<char>| #[trigger] has_key(keyed(base_sources@), q) <==> (top_hn.contains(q) || q
            == "default"@) by {}
        let ghost bs = system_nodes(*tree, tree.docs@[0]@);
        let ghost first = match nodes_flag(tree.docs@[0]@) {
            Some(b) => b,
            None => true,
        };
        assert(blocks@.subrange(0, blocks@.len() as int) =~= blocks@);
        assert(blocks@.subrange(0, 0) =~= Seq::<SystemBlock>::empty());
        let mut done: Vec<System> = Vec::new();
        let mut systems: Vec<(System, SystemManifest)> = Vec::new();
        let mut i: usize = 0;
        while i < listed.len()
            invariant
                keys_distinct(keyed(base_sources@)),
                top_hn == hydra_names(tree.docs@[0]@),
                forall|q: Seq<char>| #[trigger] has_key(keyed(base_sources@), q) <==> (top_hn.contains(q)
                    || q == "default"@),
                surface_sources(top.packages@) == nodes_sources(*tree, tree.docs@[0]@),
                block_accepted(*tree, tree.docs@[0]@, true),
                i > 0 ==> sources_found(nodes_sources(*tree, tree.docs@[0]@), top_hn),
                forall|k: int, t: System|
                    0 <= k < bs.len() && done@.contains(t) && #[trigger] crate::system::admits(bs[k].0, t)
                        ==> block_sources_found(*tree, k),
                top.wf(),
                forall|k: int| 0 <= k < blocks@.len() ==> (#[trigger] blocks@[k]).surface.wf(),
                done@.len() == systems@.len(),
                forall|k: int| 0 <= k < systems@.len() ==> #[trigger] systems@[k].0 == done@[k],
                done@.no_duplicates(),
                tree.docs@.len() > 0,
                blocks_read(*tree, blocks@, bs),
                bs == system_nodes(*tree, tree.docs@[0]@),
                first == match nodes_flag(tree.docs@[0]@) {
                    Some(b) => b,
                    None => true,
                },
                top.default_cache == nodes_flag(tree.docs@[0]@),
                string_views(top.caches@) == nodes_caches(*tree, tree.docs@[0]@),
                url_parse("https://cache.nixos.org"@) == Ok::<Seq<char>, Seq<char>>(public_cache@),
                forall|k: int|
                    0 <= k < systems@.len() ==> string_views((#[trigger] systems@[k]).1.caches@)
                        == system_caches(*tree, systems@[k].0),
                forall|k: int, q: Seq<char>|
                    0 <= k < systems@.len() ==> (#[trigger] has_key(packages_view(systems@[k].1), q)
                        <==> system_packages(*tree, systems@[k].0).contains(q)),
                forall|q: Seq<char>|
                    #[trigger] has_key(keyed(top.packages@), q) <==> nodes_packages(*tree, tree.docs@[0]@).contains(q),
                forall|k: int|
                    0 <= k < systems@.len() ==> outputs_sorted((#[trigger] systems@[k]).1.packages@),
                forall|k: int|
                    0 <= k < systems@.len() ==> crate::text::strictly_sorted(
                        string_keys((#[trigger] systems@[k]).1.env@),
                    ),
                forall|k: int, q: Seq<char>|
                    0 <= k < systems@.len() ==> (#[trigger] has_key(keyed(systems@[k].1.env@), q)
                        <==> system_env(*tree, systems@[k].0).contains(q)),
                forall|q: Seq<char>|
                    #[trigger] has_key(keyed(top.env@), q) <==> nodes_env(*tree, tree.docs@[0]@).contains(q),
                listed@ == manifest_systems(*tree),
                i <= listed@.len(),
                forall|t: System| #[trigger] done@.contains(t) <==> listed@.subrange(0, i as int).contains(t),
                listed@.len() > 0,
                i > 0 ==> systems@.len() > 0,
                forall|k: int|
                    0 <= k < systems@.len() ==> keys_distinct(packages_view(#[trigger] systems@[k].1)),
            decreases listed.len() - i,
        {
            let s = listed[i];
            let ghost seen = done@;
            let ghost pre = listed@.subrange(0, i as int);
            let ghost pre1 = listed@.subrange(0, i + 1);
            assert(pre1 =~= pre.push(s));
            assert forall|t: System| #[trigger] pre1.contains(t) <==> (pre.contains(t) || t == s) by {
                if pre1.contains(t) && t != s {
                    let k = choose|k: int| 0 <= k < pre1.len() && pre1[k] == t;
                    assert(pre[k] == t);
                }
                if pre.contains(t) {
                    let k = choose|k: int| 0 <= k < pre.len() && pre[k] == t;
                    assert(pre1[k] == t);
                }
                if t == s {
                    assert(pre1[i as int] == t);
                }
            }
            if holds_system(&done, s) {
                assert(done@.len() > 0);
            } else {
                let mut packages: Vec<(String, Package)> = Vec::new();
                assert(keyed(packages@) =~= Seq::<(Seq<char>, Package)>::empty());
                assert(outputs_sorted(packages@));
                proof {
                    lemma_found_iff(nodes_sources(*tree, tree.docs@[0]@), top_hn, keyed(base_sources@));
                }
                match resolve_packages(&top.packages, &base_sources, &mut packages) {
                    Ok(()) => {},
                    Err(e) => {
                        return Err(e);
                    },
                }
                let ghost top_names = nodes_packages(*tree, tree.docs@[0]@);
                assert(block_packages(*tree, bs.subrange(0, 0), s) =~= Seq::<Seq<char>>::empty());
                assert(top_names + Seq::<Seq<char>>::empty() =~= top_names);
                let mut env: Vec<(String, String)> = Vec::new();
                assert(keyed(env@) =~= Seq::<(Seq<char>, String)>::empty());
                assert(string_keys(env@) =~= Seq::<Seq<char>>::empty());
                merge_env(&top.env, &mut env);
                let ghost top_env = nodes_env(*tree, tree.docs@[0]@);
                assert(block_env(*tree, bs.subrange(0, 0), s) =~= Seq::<Seq<char>>::empty());
                assert(top_env + Seq::<Seq<char>>::empty() =~= top_env);
                let mut caches: Vec<String> = Vec::new();
                assert(string_views(caches@) =~= Seq::<Seq<char>>::empty());
                append_strings(&mut caches, &top.caches);
                assert(string_views(caches@) =~= nodes_caches(*tree, tree.docs@[0]@));
                let mut use_default = match top.default_cache {
                    Some(b) => b,
                    None => true,
                };
                let mut b: usize = 0;
                assert(bs.subrange(0, 0) =~= Seq::<(SystemPredicate, Seq<Node>)>::empty());
                assert(nodes_caches(*tree, tree.docs@[0]@) + Seq::<Seq<char>>::empty() =~= nodes_caches(
                    *tree,
                    tree.docs@[0]@,
                ));
                while b < blocks.len()
                    invariant
                        blocks_read(*tree, blocks@, bs),
                        b <= blocks@.len(),
                        use_default == block_flag(bs.subrange(0, b as int), s, first),
                        forall|q: Seq<char>|
                            #[trigger] has_key(keyed(packages@), q) <==> (top_names + block_packages(
                                *tree,
                                bs.subrange(0, b as int),
                                s,
                            )).contains(q),
                        forall|q: Seq<char>|
                            #[trigger] has_key(keyed(env@), q) <==> (top_env + block_env(
                                *tree,
                                bs.subrange(0, b as int),
                                s,
                            )).contains(q),
                        string_views(caches@) == nodes_caches(*tree, tree.docs@[0]@) + block_caches(
                            *tree,
                            bs.subrange(0, b as int),
                            s,
                        ),
                        keys_distinct(keyed(base_sources@)),
                        top_hn == hydra_names(tree.docs@[0]@),
                        bs == system_nodes(*tree, tree.docs@[0]@),
                        forall|q: Seq<char>| #[trigger] has_key(keyed(base_sources@), q) <==> (top_hn.contains(q)
                            || q == "default"@),
                        listed@ == manifest_systems(*tree),
                        i < listed@.len(),
                        s == listed@[i as int],
                        forall|k: int|
                            0 <= k < b && #[trigger] crate::system::admits(bs[k].0, s) ==> block_sources_found(
                                *tree,
                                k,
                            ),
                        forall|k: int| 0 <= k < blocks@.len() ==> (#[trigger] blocks@[k]).surface.wf(),
                        keys_distinct(keyed(packages@)),
                        outputs_sorted(packages@),
                        keys_distinct(keyed(env@)),
                        crate::text::strictly_sorted(string_keys(env@)),
                    decreases blocks.len() - b,
                {
                    let block = &blocks[b];
                    let ghost caches_before = string_views(caches@);
                    let ghost bp = block_packages(*tree, bs.subrange(0, b as int), s);
                    let ghost be = block_env(*tree, bs.subrange(0, b as int), s);
                    proof {
                        lemma_concat_contains(top_env, be);
                        lemma_concat_contains(be, nodes_env(*tree, bs[b as int].1));
                        lemma_concat_contains(top_env, be + nodes_env(*tree, bs[b as int].1));
                    }
                    proof {
                        lemma_concat_contains(top_names, bp);
                        lemma_concat_contains(bp, nodes_packages(*tree, bs[b as int].1));
                        lemma_concat_contains(top_names, bp + nodes_packages(*tree, bs[b as int].1));
                    }
                    assert(bs.subrange(0, b + 1).drop_last() =~= bs.subrange(0, b as int));
                    assert(bs.subrange(0, b + 1).last() == bs[b as int]);
                    assert(blocks@[b as int].predicate == bs[b as int].0);
                    if block.predicate.admits(&s) {
                        let mut sources = copy_sources(&base_sources);
                        proof {
                            lemma_keys_distinct(base_sources@, sources@);
                        }
                        let mut k: usize = 0;
                        let ghost own = block.surface.sources@;
                        proof {
                            lemma_keys_no_duplicates(sources@);
                            lemma_keys_no_duplicates(base_sources@);
                        }
                        assert(keyed(own.subrange(0, 0)) =~= Seq::<(Seq<char>, Jobset)>::empty());
                        while k < block.surface.sources.len()
                            invariant
                                keys_distinct(keyed(sources@)),
                                own == block.surface.sources@,
                                k <= own.len(),
                                forall|q: Seq<char>| #[trigger] has_key(keyed(sources@), q) <==> (has_key(
                                    keyed(base_sources@),
                                    q,
                                ) || has_key(keyed(own.subrange(0, k as int)), q)),
                            decreases block.surface.sources.len() - k,
                        {
                            assert forall|q: Seq<char>| #[trigger] has_key(keyed(own.subrange(0, k + 1)), q) <==> (
                            has_key(keyed(own.subrange(0, k as int)), q) || q == own[k as int].0@) by {
                                let pre = keyed(own.subrange(0, k as int));
                                let post = keyed(own.subrange(0, k + 1));
                                if has_key(post, q) && q != own[k as int].0@ {
                                    let m = choose|m: int| 0 <= m < post.len() && post[m].0 == q;
                                    assert(pre[m].0 == q);
                                }
                                if has_key(pre, q) {
                                    let m = choose|m: int| 0 <= m < pre.len() && pre[m].0 == q;
                                    assert(post[m].0 == q);
                                }
                                if q == own[k as int].0@ {
                                    assert(post[k as int].0 == q);
                                }
                            }
                            put(
                                &mut sources,
                                block.surface.sources[k].0.clone(),
                                block.surface.sources[k].1.duplicate(),
                            );
                            k += 1;
                        }
                        assert(own.subrange(0, k as int) =~= own);
                        proof {
                            lemma_keys_no_duplicates(own);
                            lemma_concat_contains(top_hn, hydra_names(bs[b as int].1));
                            assert forall|q: Seq<char>| #[trigger] has_key(keyed(sources@), q) <==> ((top_hn
                                + hydra_names(bs[b as int].1)).contains(q) || q == "default"@) by {}
                            lemma_found_iff(
                                nodes_sources(*tree, bs[b as int].1),
                                top_hn + hydra_names(bs[b as int].1),
                                keyed(sources@),
                            );
                        }
                        match resolve_packages(&block.surface.packages, &sources, &mut packages) {
                            Ok(()) => {},
                            Err(e) => {
                                proof {
                                    assert(!block_sources_found(*tree, b as int));
                                    assert(manifest_systems(*tree).contains(s));
                                    assert(crate::system::admits(bs[b as int].0, s));
                                }
                                return Err(e);
                            },
                        }
                        assert(block_sources_found(*tree, b as int));
                        assert(block_packages(*tree, bs.subrange(0, b + 1), s) =~= bp + nodes_packages(
                            *tree,
                            bs[b as int].1,
                        ));
                        merge_env(&block.surface.env, &mut env);
                        assert(block_env(*tree, bs.subrange(0, b + 1), s) =~= be + nodes_env(
                            *tree,
                            bs[b as int].1,
                        ));
                        match block.surface.default_cache {
                            Some(d) => {
                                use_default = d;
                            },
                            None => {},
                        }
                        append_strings(&mut caches, &block.surface.caches);
                        assert(string_views(caches@) =~= nodes_caches(*tree, tree.docs@[0]@)
                            + block_caches(*tree, bs.subrange(0, b + 1), s));
                    } else {
                        assert(block_packages(*tree, bs.subrange(0, b + 1), s) =~= bp + Seq::<
                            Seq<char>,
                        >::empty());
                        assert(block_env(*tree, bs.subrange(0, b + 1), s) =~= be + Seq::<
                            Seq<char>,
                        >::empty());
                        assert(block_caches(*tree, bs.subrange(0, b + 1), s) =~= block_caches(
                            *tree,
                            bs.subrange(0, b as int),
                            s,
                        ) + Seq::<Seq<char>>::empty());
                    }
                    b += 1;
                }
                assert(bs.subrange(0, b as int) =~= bs);
                if use_default {
                    let ghost rest = string_views(caches@);
                    caches.insert(0, public_cache.clone());
                    assert(string_views(caches@) =~= seq![public_cache@] + rest);
                } else {
                    assert(string_views(caches@) =~= Seq::<Seq<char>>::empty() + string_views(caches@));
                }
                assert(string_views(caches@) == system_caches(*tree, s));
                proof {
                    lemma_concat_contains(top_names, block_packages(*tree, bs, s));
                    lemma_concat_contains(top_env, block_env(*tree, bs, s));
                }
                assert(packages_view(SystemManifest { packages, caches, env }) =~= keyed(packages@));
                let ghost before = systems@;
                done.push(s);
                assert forall|t: System| #[trigger] done@.contains(t) <==> (seen.contains(t) || t == s) by {
                    if done@.contains(t) && t != s {
                        let k = choose|k: int| 0 <= k < done@.len() && done@[k] == t;
                        assert(seen[k] == t);
                    }
                    if seen.contains(t) {
                        let k = choose|k: int| 0 <= k < seen.len() && seen[k] == t;
                        assert(done@[k] == t);
                    }
                    if t == s {
                        assert(done@[seen.len() as int] == t);
                    }
                }
                systems.push((s, SystemManifest { packages, caches, env }));
                assert forall|k: int| 0 <= k < systems@.len() implies keys_distinct(
                    packages_view(#[trigger] systems@[k].1),
                ) && string_views(systems@[k].1.caches@) == system_caches(*tree, systems@[k].0) by {
                    if k < before.len() {
                        assert(systems@[k] == before[k]);
                    }
                }
                assert forall|k: int, q: Seq<char>| 0 <= k < systems@.len() implies (#[trigger] has_key(
                    keyed(systems@[k].1.env@),
                    q,
                ) <==> system_env(*tree, systems@[k].0).contains(q)) by {
                    if k < before.len() {
                        assert(systems@[k] == before[k]);
                    }
                }
                assert forall|k: int| 0 <= k < systems@.len() implies crate::text::strictly_sorted(
                    string_keys((#[trigger] systems@[k]).1.env@),
                ) by {
                    if k < before.len() {
                        assert(systems@[k] == before[k]);
                    }
                }
                assert forall|k: int| 0 <= k < systems@.len() implies outputs_sorted(
                    (#[trigger] systems@[k]).1.packages@,
                ) by {
                    if k < before.len() {
                        assert(systems@[k] == before[k]);
                    }
                }
                assert forall|k: int, q: Seq<char>| 0 <= k < systems@.len() implies (#[trigger] has_key(
                    packages_view(systems@[k].1),
                    q,
                ) <==> system_packages(*tree, systems@[k].0).contains(q)) by {
                    if k < before.len() {
                        assert(systems@[k] == before[k]);
                    }
                }
            }
            i += 1;
        }
        assert(listed@.subrange(0, i as int) =~= listed@);
        let m = Manifest { systems };
        assert forall|t: System| #[trigger] has_key(m.systems@, t) <==> manifest_systems(*tree).contains(
            t,
        ) by {
            if has_key(m.systems@, t) {
                let k = choose|k: int| 0 <= k < m.systems@.len() && m.systems@[k].0 == t;
                assert(done@[k] == t);
                assert(done@.contains(t));
            }
            if done@.contains(t) {
                let k = choose|k: int| 0 <= k < done@.len() && done@[k] == t;
                assert(m.systems@[k].0 == t);
            }
        }
        assert forall|a: int, b: int| 0 <= a < b < m.systems@.len() implies m.systems@[a].0
            != m.systems@[b].0 by {
            assert(done@[a] != done@[b]);
        }
        Ok(m)
    }
}

} // verus!
