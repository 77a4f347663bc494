//! Reference/impact graph — "what breaks if I remove X?".
//!
//! Nodes are project roots and the dependency stores they own; an edge
//! runs from each project to each store it references. A project is a
//! directory holding a marker file (`Cargo.toml`, `package.json`,
//! `pyproject.toml`); a store is a directory named `target`,
//! `node_modules`, `.venv` or `venv` that some scanned entry sits inside.
//!
//! The graph itself is a `petgraph` directed graph; it is reached only
//! through the trusted items at the top of this module.
use vstd::prelude::*;
use crate::paths::{
    file_name, fingerprint, join, join_chars, last_sep, last_sep_before, lemma_last_sep_bounds,
    lemma_last_sep_is,
    lemma_parent_shorter, parent, parent_len, prefix, prefix_fingerprints, subrange_equals, PathTable,
    NO_ENTRY,
};
use crate::text::{chars_of, string_from};
use crate::FileEntry;
use petgraph::graph::DiGraph;

verus! {

// ---------------------------------------------------------------------------
// petgraph, behind trusted items

#[verifier::external_type_specification]
#[verifier::external_body]
#[verifier::reject_recursive_types(N)]
#[verifier::reject_recursive_types(E)]
#[verifier::reject_recursive_types(Ty)]
#[verifier::reject_recursive_types(Ix)]
pub struct ExGraph<N, E, Ty, Ix>(petgraph::graph::Graph<N, E, Ty, Ix>);

#[verifier::external_type_specification]
#[verifier::external_body]
pub struct ExDirected(petgraph::Directed);

/// The nodes a petgraph graph holds, in index order, each as its key path
/// and whether it is a project root.
pub uninterp spec fn graph_nodes(g: DiGraph<Node, Edge>) -> Seq<(Seq<char>, bool)>;

/// The edges a petgraph graph holds, in insertion order, as (source
/// index, target index).
pub uninterp spec fn graph_edges(g: DiGraph<Node, Edge>) -> Seq<(int, int)>;

/// `DiGraph::new`: a graph with no nodes and no edges.
#[verifier::external_body]
fn new_graph() -> (g: DiGraph<Node, Edge>)
    ensures
        graph_nodes(g) == Seq::<(Seq<char>, bool)>::empty(),
        graph_edges(g) == Seq::<(int, int)>::empty(),
{
    DiGraph::new()
}

/// `Graph::add_node`: appends a node and returns its index, which is the
/// previous node count. petgraph panics when the count reaches the `u32`
/// index limit, hence the `requires`.
#[verifier::external_body]
fn add_graph_node(g: &mut DiGraph<Node, Edge>, node: Node) -> (ix: usize)
    requires
        graph_nodes(*old(g)).len() < u32::MAX,
    ensures
        ix == graph_nodes(*old(g)).len(),
        graph_nodes(*final(g)) == graph_nodes(*old(g)).push((node.key(), node.is_project())),
        graph_edges(*final(g)) == graph_edges(*old(g)),
{
    g.add_node(node).index()
}

/// `Graph::add_edge`: appends an edge between two existing nodes. petgraph
/// panics on an index out of bounds or at the `u32` edge limit.
#[verifier::external_body]
fn add_graph_edge(g: &mut DiGraph<Node, Edge>, from: usize, to: usize, edge: Edge)
    requires
        from < graph_nodes(*old(g)).len(),
        to < graph_nodes(*old(g)).len(),
        graph_edges(*old(g)).len() < u32::MAX,
    ensures
        graph_nodes(*final(g)) == graph_nodes(*old(g)),
        graph_edges(*final(g)) == graph_edges(*old(g)).push((from as int, to as int)),
{
    g.add_edge(petgraph::graph::NodeIndex::new(from), petgraph::graph::NodeIndex::new(to), edge);
}

/// How many edges into `ix` come from a project-root node.
pub open spec fn incoming_projects(nodes: Seq<(Seq<char>, bool)>, edges: Seq<(int, int)>, ix: int) -> nat
    decreases edges.len(),
{
    if edges.len() == 0 {
        0
    } else {
        let e = edges.last();
        incoming_projects(nodes, edges.drop_last(), ix) + if e.1 == ix && 0 <= e.0 < nodes.len()
            && nodes[e.0].1 {
            1nat
        } else {
            0nat
        }
    }
}

/// How many (project, store) references point at `key`.
pub open spec fn links_into(links: Seq<(Seq<char>, Seq<char>)>, key: Seq<char>) -> nat
    decreases links.len(),
{
    if links.len() == 0 {
        0
    } else {
        links_into(links.drop_last(), key) + if links.last().1 == key {
            1nat
        } else {
            0nat
        }
    }
}

/// The sources of the edges into `ix`, in the order the edges were added.
pub open spec fn incoming_sources(edges: Seq<(int, int)>, ix: int) -> Seq<int>
    decreases edges.len(),
{
    if edges.len() == 0 {
        seq![]
    } else {
        incoming_sources(edges.drop_last(), ix) + if edges.last().1 == ix {
            seq![edges.last().0]
        } else {
            seq![]
        }
    }
}

/// `Graph::neighbors_directed(ix, Incoming)`, as node indices. For a
/// directed graph petgraph yields the source of every edge into `ix`,
/// self-loops included, the most recently added edge first.
#[verifier::external_body]
fn incoming_neighbors(g: &DiGraph<Node, Edge>, ix: usize) -> (r: Vec<usize>)
    requires
        ix < graph_nodes(*g).len(),
    ensures
        r@.map_values(|n: usize| n as int) == incoming_sources(graph_edges(*g), ix as int).reverse(),
{
    g.neighbors_directed(petgraph::graph::NodeIndex::new(ix), petgraph::Direction::Incoming).map(
        |n| n.index(),
    ).collect()
}

/// How many of `srcs` are project-root nodes.
pub open spec fn count_flagged(nodes: Seq<(Seq<char>, bool)>, srcs: Seq<int>) -> nat
    decreases srcs.len(),
{
    if srcs.len() == 0 {
        0
    } else {
        count_flagged(nodes, srcs.drop_last()) + if 0 <= srcs.last() < nodes.len() && nodes[srcs.last()].1 {
            1nat
        } else {
            0nat
        }
    }
}

proof fn lemma_incoming_counts(nodes: Seq<(Seq<char>, bool)>, edges: Seq<(int, int)>, ix: int)
    ensures
        count_flagged(nodes, incoming_sources(edges, ix)) == incoming_projects(nodes, edges, ix),
        forall|j: int|
            0 <= j < incoming_sources(edges, ix).len() ==> exists|e: int|
                0 <= e < edges.len() && #[trigger] incoming_sources(edges, ix)[j] == edges[e].0,
    decreases edges.len(),
{
    if edges.len() > 0 {
        let t = edges.drop_last();
        lemma_incoming_counts(nodes, t, ix);
        let prev = incoming_sources(t, ix);
        let cur = incoming_sources(edges, ix);
        if edges.last().1 == ix {
            assert(cur.drop_last() =~= prev);
        } else {
            assert(cur =~= prev);
        }
        assert forall|j: int| 0 <= j < cur.len() implies exists|e: int|
            0 <= e < edges.len() && #[trigger] cur[j] == edges[e].0 by {
            if j < prev.len() {
                assert(cur[j] == prev[j]);
                let e = choose|e: int| 0 <= e < t.len() && prev[j] == t[e].0;
                assert(edges[e] == t[e]);
            } else {
                assert(cur[j] == edges[edges.len() - 1].0);
            }
        }
    }
}

// ---------------------------------------------------------------------------
// Node and edge types

#[derive(Clone, Copy, Debug, PartialEq, Eq, Structural)]
pub enum ProjectKind {
    Cargo,
    Npm,
    Python,
    Unknown,
}

#[derive(Clone, Copy, Debug)]
pub enum Edge {
    /// Project depends on this store/file (from lockfile or config).
    References,
    /// Filesystem containment.
    Contains,
    /// Symlink or hard link.
    LinksTo,
}

#[derive(Clone, Debug)]
pub enum Node {
    File(String),
    ProjectRoot { path: String, kind: ProjectKind },
    DependencyStore(String),
}

impl Node {
    /// The path a node is found by.
    pub open spec fn key(&self) -> Seq<char> {
        match self {
            Node::File(p) => p@,
            Node::ProjectRoot { path, .. } => path@,
            Node::DependencyStore(p) => p@,
        }
    }

    pub open spec fn spec_is_project(&self) -> bool {
        self is ProjectRoot
    }

    #[verifier::when_used_as_spec(spec_is_project)]
    pub fn is_project(&self) -> (r: bool)
        ensures
            r == self.spec_is_project(),
    {
        match self {
            Node::ProjectRoot { .. } => true,
            _ => false,
        }
    }

    fn key_chars(&self) -> (v: Vec<char>)
        ensures
            v@ == self.key(),
    {
        match self {
            Node::File(p) => chars_of(p.as_str()),
            Node::ProjectRoot { path, .. } => chars_of(path.as_str()),
            Node::DependencyStore(p) => chars_of(p.as_str()),
        }
    }
}

// ---------------------------------------------------------------------------
// What the graph is built from

/// Directory names that are dependency stores wherever they appear.
pub open spec fn is_store_name(n: Seq<char>) -> bool {
    n == "target"@ || n == "node_modules"@ || n == ".venv"@ || n == "venv"@
}

/// The separator at `k` closes a directory component of `p` that is a
/// dependency store (the last component, `p`'s own name, never counts).
pub open spec fn store_end(p: Seq<char>, k: int) -> bool {
    &&& 0 < k < p.len()
    &&& p[k] == '/'
    &&& is_store_name(p.subrange(last_sep(p.take(k)) + 1, k))
}

/// The outermost dependency store `p` sits inside, if any.
pub open spec fn enclosing_store(p: Seq<char>) -> Option<Seq<char>> {
    if exists|k: int| store_end(p, k) {
        let k = choose|k: int| store_end(p, k) && forall|j: int| j < k ==> !store_end(p, j);
        Some(p.take(k))
    } else {
        None
    }
}

pub open spec fn ascii_lower(c: char) -> char {
    if 'A' <= c && c <= 'Z' {
        ((c as u32) + 32) as char
    } else {
        c
    }
}

pub open spec fn lower(s: Seq<char>) -> Seq<char> {
    s.map_values(|c: char| ascii_lower(c))
}

/// Which kind of project a file marks, by its (ASCII case-folded) name.
pub open spec fn marker_kind(p: Seq<char>) -> Option<ProjectKind> {
    match file_name(p) {
        Some(n) => if lower(n) == "cargo.toml"@ {
            Some(ProjectKind::Cargo)
        } else if lower(n) == "package.json"@ {
            Some(ProjectKind::Npm)
        } else if lower(n) == "pyproject.toml"@ {
            Some(ProjectKind::Python)
        } else {
            None
        },
        None => None,
    }
}

/// The project root a file marks: its directory and kind. A marker inside
/// a dependency store marks nothing.
pub open spec fn marked_root(p: Seq<char>) -> Option<(Seq<char>, ProjectKind)> {
    if enclosing_store(p) is Some {
        None
    } else {
        match (marker_kind(p), parent(p)) {
            (Some(k), Some(d)) => Some((d, k)),
            _ => None,
        }
    }
}

/// Roots as (directory, kind) pairs in order of first discovery. A
/// directory holding markers of two kinds is a root of both.
pub open spec fn add_root(roots: Seq<(Seq<char>, ProjectKind)>, d: Seq<char>, k: ProjectKind) -> Seq<
    (Seq<char>, ProjectKind),
> {
    if roots.contains((d, k)) {
        roots
    } else {
        roots.push((d, k))
    }
}

/// The project roots the entries mark.
pub open spec fn project_roots(paths: Seq<Seq<char>>) -> Seq<(Seq<char>, ProjectKind)>
    decreases paths.len(),
{
    if paths.len() == 0 {
        seq![]
    } else {
        let before = project_roots(paths.drop_last());
        match marked_root(paths.last()) {
            Some((d, k)) => add_root(before, d, k),
            None => before,
        }
    }
}

/// The dependency stores the entries sit inside.
pub open spec fn seen_stores(paths: Seq<Seq<char>>) -> Set<Seq<char>> {
    Set::new(|s: Seq<char>| exists|i: int| 0 <= i < paths.len() && enclosing_store(paths[i]) == Some(s))
}

/// `s` if the scan saw it, else nothing.
pub open spec fn if_seen(s: Seq<char>, seen: Set<Seq<char>>) -> Seq<Seq<char>> {
    if seen.contains(s) {
        seq![s]
    } else {
        seq![]
    }
}

/// The stores a project owns that the scan actually saw: `target` for
/// Cargo, `node_modules` for npm, `.venv` then `venv` for Python.
pub open spec fn stores_of(root: Seq<char>, kind: ProjectKind, seen: Set<Seq<char>>) -> Seq<Seq<char>> {
    match kind {
        ProjectKind::Cargo => if_seen(join(root, "target"@), seen),
        ProjectKind::Npm => if_seen(join(root, "node_modules"@), seen),
        ProjectKind::Python => if_seen(join(root, ".venv"@), seen) + if_seen(join(root, "venv"@), seen),
        ProjectKind::Unknown => seq![],
    }
}

/// Directory `d` is a project root of kind `k`.
pub open spec fn has_root(roots: Seq<(Seq<char>, ProjectKind)>, d: Seq<char>, k: ProjectKind) -> bool {
    roots.contains((d, k))
}

/// The stores of the nearest enclosing project of the same kind that owns
/// any — what a workspace member uses when dependencies were hoisted.
pub open spec fn shared_store(
    q: Seq<char>,
    kind: ProjectKind,
    roots: Seq<(Seq<char>, ProjectKind)>,
    seen: Set<Seq<char>>,
) -> Seq<Seq<char>>
    decreases q.len(),
{
    match parent(q) {
        Some(a) => if a.len() < q.len() {
            if has_root(roots, a, kind) && stores_of(a, kind, seen).len() > 0 {
                stores_of(a, kind, seen)
            } else {
                shared_store(a, kind, roots, seen)
            }
        } else {
            seq![]
        },
        None => seq![],
    }
}

/// The stores a project references: its own, or else the hoisted ones.
pub open spec fn targets(
    root: (Seq<char>, ProjectKind),
    roots: Seq<(Seq<char>, ProjectKind)>,
    seen: Set<Seq<char>>,
) -> Seq<Seq<char>> {
    if stores_of(root.0, root.1, seen).len() > 0 {
        stores_of(root.0, root.1, seen)
    } else {
        shared_store(root.0, root.1, roots, seen)
    }
}

/// Every (project, store) reference of the first `n` roots, in order.
pub open spec fn links_upto(
    roots: Seq<(Seq<char>, ProjectKind)>,
    seen: Set<Seq<char>>,
    n: int,
) -> Seq<(Seq<char>, Seq<char>)>
    decreases n,
{
    if n <= 0 {
        seq![]
    } else {
        links_upto(roots, seen, n - 1) + targets(roots[n - 1], roots, seen).map_values(
            |t: Seq<char>| (roots[n - 1].0, t),
        )
    }
}

/// Every (project, store) reference the entries imply.
pub open spec fn spec_links(paths: Seq<Seq<char>>) -> Seq<(Seq<char>, Seq<char>)> {
    let roots = project_roots(paths);
    links_upto(roots, seen_stores(paths), roots.len() as int)
}

/// The node nearest `p`: `p` itself if it is a node, else the nearest of
/// its ancestors that is.
pub open spec fn nearest_in(keys: Seq<Seq<char>>, p: Seq<char>) -> Option<int>
    decreases p.len(),
{
    if exists|i: int| 0 <= i < keys.len() && keys[i] == p {
        Some(choose|i: int| 0 <= i < keys.len() && keys[i] == p)
    } else {
        match parent(p) {
            Some(q) => if q.len() < p.len() {
                nearest_in(keys, q)
            } else {
                None
            },
            None => None,
        }
    }
}

/// `k` is an end of one of the links.
pub open spec fn linked(links: Seq<(Seq<char>, Seq<char>)>, k: Seq<char>) -> bool {
    exists|e: int| 0 <= e < links.len() && (#[trigger] links[e].0 == k || links[e].1 == k)
}

/// The link end nearest `p`: `p` itself if it is one, else the nearest of
/// its ancestors that is.
pub open spec fn nearest_linked(links: Seq<(Seq<char>, Seq<char>)>, p: Seq<char>) -> Option<Seq<char>>
    decreases p.len(),
{
    if linked(links, p) {
        Some(p)
    } else {
        match parent(p) {
            Some(q) => if q.len() < p.len() {
                nearest_linked(links, q)
            } else {
                None
            },
            None => None,
        }
    }
}

/// How many projects the links say reference `p`: the links into the
/// link end nearest `p`, 0 when there is none.
pub open spec fn references_to(links: Seq<(Seq<char>, Seq<char>)>, p: Seq<char>) -> nat {
    match nearest_linked(links, p) {
        Some(k) => links_into(links, k),
        None => 0,
    }
}

/// The entries' paths.
pub open spec fn entry_paths(entries: Seq<FileEntry>) -> Seq<Seq<char>> {
    entries.map_values(|e: FileEntry| e.path@)
}

// ---------------------------------------------------------------------------
// Recognising stores and markers

/// The names the graph recognises, as characters.
struct Names {
    target: Vec<char>,
    node_modules: Vec<char>,
    dot_venv: Vec<char>,
    venv: Vec<char>,
    cargo_toml: Vec<char>,
    package_json: Vec<char>,
    pyproject_toml: Vec<char>,
}

impl Names {
    spec fn valid(&self) -> bool {
        &&& self.target@ == "target"@
        &&& self.node_modules@ == "node_modules"@
        &&& self.dot_venv@ == ".venv"@
        &&& self.venv@ == "venv"@
        &&& self.cargo_toml@ == "cargo.toml"@
        &&& self.package_json@ == "package.json"@
        &&& self.pyproject_toml@ == "pyproject.toml"@
    }

    fn new() -> (n: Names)
        ensures
            n.valid(),
    {
        Names {
            target: chars_of("target"),
            node_modules: chars_of("node_modules"),
            dot_venv: chars_of(".venv"),
            venv: chars_of("venv"),
            cargo_toml: chars_of("cargo.toml"),
            package_json: chars_of("package.json"),
            pyproject_toml: chars_of("pyproject.toml"),
        }
    }
}

/// ASCII case folding of one character.
pub fn lower_char(c: char) -> (r: char)
    ensures
        r == ascii_lower(c),
{
    if 'A' <= c && c <= 'Z' {
        let code: u8 = (c as u8) + 32;
        code as char
    } else {
        c
    }
}

/// Whether `p[start..end]`, ASCII case-folded, spells `key`.
fn lower_subrange_equals(p: &Vec<char>, start: usize, end: usize, key: &Vec<char>) -> (r: bool)
    requires
        start <= end <= p@.len(),
    ensures
        r == (lower(p@.subrange(start as int, end as int)) == key@),
{
    let ghost sub = p@.subrange(start as int, end as int);
    if end - start != key.len() {
        proof {
            assert(lower(sub).len() != key@.len());
        }
        return false;
    }
    let mut i: usize = 0;
    while i < key.len()
        invariant
            start <= end <= p@.len(),
            sub == p@.subrange(start as int, end as int),
            end - start == key@.len(),
            i <= key@.len(),
            forall|j: int| 0 <= j < i ==> ascii_lower(p@[start + j]) == key@[j],
        decreases key@.len() - i,
    {
        if lower_char(p[start + i]) != key[i] {
            proof {
                assert(lower(sub)[i as int] != key@[i as int]);
            }
            return false;
        }
        i = i + 1;
    }
    proof {
        assert(lower(sub) =~= key@);
    }
    true
}

fn is_store_component(p: &Vec<char>, start: usize, end: usize, names: &Names) -> (r: bool)
    requires
        start <= end <= p@.len(),
        names.valid(),
    ensures
        r == is_store_name(p@.subrange(start as int, end as int)),
{
    subrange_equals(p, start, end, &names.target) || subrange_equals(p, start, end, &names.node_modules)
        || subrange_equals(p, start, end, &names.dot_venv) || subrange_equals(
        p,
        start,
        end,
        &names.venv,
    )
}

proof fn lemma_last_sep_take_step(p: Seq<char>, i: int)
    requires
        0 <= i < p.len(),
    ensures
        last_sep(p.take(i + 1)) == if p[i] == '/' { i } else { last_sep(p.take(i)) },
{
    assert(p.take(i + 1).drop_last() =~= p.take(i));
}

/// The separator closing the outermost store component of `p`, if any.
fn first_store_end(p: &Vec<char>, names: &Names) -> (r: Option<usize>)
    requires
        names.valid(),
    ensures
        match r {
            Some(k) => store_end(p@, k as int) && forall|j: int| j < k ==> !store_end(p@, j),
            None => forall|j: int| !store_end(p@, j),
        },
{
    let mut start: usize = 0;
    let mut i: usize = 0;
    proof {
        assert(p@.take(0) =~= Seq::<char>::empty());
    }
    while i < p.len()
        invariant
            names.valid(),
            i <= p@.len(),
            start as int == last_sep(p@.take(i as int)) + 1,
            forall|j: int| j < i ==> !store_end(p@, j),
        decreases p@.len() - i,
    {
        proof {
            lemma_last_sep_take_step(p@, i as int);
            lemma_last_sep_bounds(p@.take(i as int));
        }
        if p[i] == '/' {
            if i > 0 && is_store_component(p, start, i, names) {
                return Some(i);
            }
            start = i + 1;
        }
        i = i + 1;
    }
    None
}

/// The kind of project `p` marks by its name, if it is a marker file.
fn marker_kind_of(p: &Vec<char>, names: &Names) -> (r: Option<ProjectKind>)
    requires
        names.valid(),
    ensures
        r == marker_kind(p@),
{
    if p.len() == 0 {
        return None;
    }
    if p.len() == 1 && p[0] == '/' {
        assert(p@ =~= seq!['/']);
        return None;
    }
    assert(p@ != seq!['/']) by {
        if p@.len() == 1 {
            assert(p@[0] != '/');
        }
    }
    let len = p.len();
    proof {
        assert(p@.take(len as int) =~= p@);
        lemma_last_sep_bounds(p@);
    }
    let start: usize = match last_sep_before(p, len) {
        Some(k) => k + 1,
        None => 0,
    };
    assert(p@.skip(last_sep(p@) + 1) =~= p@.subrange(start as int, len as int));
    if lower_subrange_equals(p, start, len, &names.cargo_toml) {
        Some(ProjectKind::Cargo)
    } else if lower_subrange_equals(p, start, len, &names.package_json) {
        Some(ProjectKind::Npm)
    } else if lower_subrange_equals(p, start, len, &names.pyproject_toml) {
        Some(ProjectKind::Python)
    } else {
        None
    }
}

// ---------------------------------------------------------------------------
// Collecting roots and stores

/// The number a root's kind is tagged with in its table key.
pub open spec fn kind_code(k: ProjectKind) -> char {
    match k {
        ProjectKind::Cargo => 'c',
        ProjectKind::Npm => 'n',
        ProjectKind::Python => 'p',
        ProjectKind::Unknown => 'u',
    }
}

/// The table key of root directory `d` of kind `k`: the directory, a NUL
/// and the kind's tag. The tail has a fixed length, so the key names the
/// pair and nothing else.
pub open spec fn root_key(d: Seq<char>, k: ProjectKind) -> Seq<char> {
    d + seq!['\0', kind_code(k)]
}

/// The directory a root key names.
pub open spec fn key_dir(key: Seq<char>) -> Seq<char> {
    key.take(key.len() - 2)
}

/// Roots as (directory, kind) pairs from a table of root keys and a
/// parallel kind list.
pub open spec fn roots_model(keys: Seq<Seq<char>>, kinds: Seq<ProjectKind>) -> Seq<(Seq<char>, ProjectKind)> {
    Seq::new(keys.len(), |i: int| (key_dir(keys[i]), kinds[i]))
}

/// Every key of the table is the root key of its model pair.
pub open spec fn keyed(keys: Seq<Seq<char>>, kinds: Seq<ProjectKind>) -> bool {
    &&& keys.len() == kinds.len()
    &&& forall|i: int| 0 <= i < keys.len() ==> #[trigger] keys[i] == root_key(key_dir(keys[i]), kinds[i])
}

proof fn lemma_root_key_injective(d1: Seq<char>, k1: ProjectKind, d2: Seq<char>, k2: ProjectKind)
    ensures
        root_key(d1, k1) == root_key(d2, k2) <==> (d1 == d2 && k1 == k2),
        key_dir(root_key(d1, k1)) == d1,
{
    let a = root_key(d1, k1);
    let b = root_key(d2, k2);
    assert(a.take(a.len() - 2) =~= d1);
    if a == b {
        assert(b.take(b.len() - 2) =~= d2);
        assert(a[a.len() - 1] == kind_code(k1));
        assert(b[b.len() - 1] == kind_code(k2));
    }
}

/// The table key of root `d` of `kind`.
fn root_key_exec(d: &Vec<char>, kind: ProjectKind) -> (key: Vec<char>)
    ensures
        key@ == root_key(d@, kind),
{
    let mut key = prefix(d, d.len());
    proof {
        assert(d@.take(d@.len() as int) =~= d@);
    }
    key.push('\0');
    key.push(
        match kind {
            ProjectKind::Cargo => 'c',
            ProjectKind::Npm => 'n',
            ProjectKind::Python => 'p',
            ProjectKind::Unknown => 'u',
        },
    );
    assert(key@ =~= root_key(d@, kind));
    key
}

pub open spec fn char_views(v: Seq<Vec<char>>) -> Seq<Seq<char>> {
    v.map_values(|x: Vec<char>| x@)
}

proof fn lemma_enclosing_store_is(p: Seq<char>, k: int)
    requires
        store_end(p, k),
        forall|j: int| j < k ==> !store_end(p, j),
    ensures
        enclosing_store(p) == Some(p.take(k)),
{
    let c = choose|c: int| store_end(p, c) && forall|j: int| j < c ==> !store_end(p, j);
    assert(store_end(p, c) && forall|j: int| j < c ==> !store_end(p, j));
    if c < k {
        assert(!store_end(p, c));
    } else if k < c {
        assert(!store_end(p, k));
    }
}

proof fn lemma_seen_step(before: Seq<Seq<char>>, p: Seq<char>)
    ensures
        forall|t: Seq<char>|
            #[trigger] seen_stores(before.push(p)).contains(t) <==> (seen_stores(before).contains(t)
                || enclosing_store(p) == Some(t)),
{
    let now = before.push(p);
    assert forall|t: Seq<char>|
        #[trigger] seen_stores(now).contains(t) <==> (seen_stores(before).contains(t)
            || enclosing_store(p) == Some(t)) by {
        if seen_stores(now).contains(t) {
            let j = choose|j: int| 0 <= j < now.len() && enclosing_store(now[j]) == Some(t);
            if j < before.len() {
                assert(before[j] == now[j]);
                assert(seen_stores(before).contains(t));
            }
        }
        if seen_stores(before).contains(t) {
            let j = choose|j: int| 0 <= j < before.len() && enclosing_store(before[j]) == Some(t);
            assert(now[j] == before[j]);
        }
        if enclosing_store(p) == Some(t) {
            assert(now[before.len() as int] == p);
        }
    }
}

proof fn lemma_roots_step(before: Seq<Seq<char>>, p: Seq<char>)
    ensures
        project_roots(before.push(p)) == match marked_root(p) {
            Some((d, k)) => add_root(project_roots(before), d, k),
            None => project_roots(before),
        },
{
    assert(before.push(p).drop_last() =~= before);
}

/// Records `d` as a root of `kind`, unless it already is one.
fn add_root_exec(roots: &mut PathTable, kinds: &mut Vec<ProjectKind>, d: Vec<char>, kind: ProjectKind)
    requires
        old(roots).wf(),
        keyed(old(roots).view(), old(kinds)@),
        old(roots).view().len() < NO_ENTRY - 1,
    ensures
        final(roots).wf(),
        keyed(final(roots).view(), final(kinds)@),
        final(roots).view().len() <= old(roots).view().len() + 1,
        roots_model(final(roots).view(), final(kinds)@) == add_root(
            roots_model(old(roots).view(), old(kinds)@),
            d@,
            kind,
        ),
{
    let ghost dv = d@;
    let ghost old_model = roots_model(roots.view(), kinds@);
    let ghost old_keys = roots.view();
    let key = root_key_exec(&d, kind);
    proof {
        lemma_root_key_injective(dv, kind, dv, kind);
        assert forall|j: int| 0 <= j < old_model.len() implies (old_model[j] == (dv, kind) <==> old_keys[j]
            == root_key(dv, kind)) by {
            lemma_root_key_injective(key_dir(old_keys[j]), kinds@[j], dv, kind);
        }
    }
    let (ri, added) = roots.insert(key);
    if added {
        kinds.push(kind);
        proof {
            if old_model.contains((dv, kind)) {
                let j = choose|j: int| 0 <= j < old_model.len() && old_model[j] == (dv, kind);
                assert(old_keys[j] == root_key(dv, kind));
            }
            assert(roots_model(roots.view(), kinds@) =~= old_model.push((dv, kind)));
        }
    } else {
        proof {
            assert(old_keys[ri as int] == root_key(dv, kind));
            assert(old_model[ri as int] == (dv, kind));
            assert(old_model.contains((dv, kind)));
            assert(roots_model(roots.view(), kinds@) =~= old_model);
        }
    }
}

/// The root a file marks, if it marks one.
fn marked_root_of(p: &Vec<char>, names: &Names) -> (r: Option<(Vec<char>, ProjectKind)>)
    requires
        names.valid(),
        enclosing_store(p@) is None,
    ensures
        match r {
            Some((d, k)) => marked_root(p@) == Some((d@, k)),
            None => marked_root(p@) is None,
        },
{
    proof {
        assert(p@.take(p@.len() as int) =~= p@);
    }
    match marker_kind_of(p, names) {
        Some(kind) => match parent_len(p, p.len()) {
            Some(l) => Some((prefix(p, l), kind)),
            None => None,
        },
        None => None,
    }
}

/// Records a store the scan saw.
fn add_store(stores: &mut PathTable, s: Vec<char>)
    requires
        old(stores).wf(),
        old(stores).view().len() < NO_ENTRY - 1,
    ensures
        final(stores).wf(),
        final(stores).view().len() <= old(stores).view().len() + 1,
        forall|t: Seq<char>|
            final(stores).view().contains(t) <==> (old(stores).view().contains(t) || t == s@),
{
    let ghost sv = s@;
    let (ix, added) = stores.insert(s);
    proof {
        assert forall|t: Seq<char>|
            stores.view().contains(t) <==> (old(stores).view().contains(t) || t == sv) by {
            if t == sv {
                assert(stores.view()[ix as int] == t);
            }
            if old(stores).view().contains(t) {
                let j = choose|j: int| 0 <= j < old(stores).view().len() && old(stores).view()[j] == t;
                if added {
                    assert(stores.view()[j] == t);
                }
            }
            if stores.view().contains(t) && !added {
                assert(old(stores).view().contains(t));
            }
            if stores.view().contains(t) && added && t != sv {
                let j = choose|j: int| 0 <= j < stores.view().len() && stores.view()[j] == t;
                assert(j < old(stores).view().len());
                assert(old(stores).view()[j] == t);
            }
        }
    }
}

/// One pass over the entries: the project roots they mark and the stores
/// they sit inside.
fn collect(entries: &Vec<FileEntry>, names: &Names) -> (r: (PathTable, Vec<ProjectKind>, PathTable))
    requires
        names.valid(),
        entries@.len() < NO_ENTRY - 2,
    ensures
        r.0.wf(),
        r.2.wf(),
        r.0.view().len() == r.1@.len(),
        keyed(r.0.view(), r.1@),
        r.0.view().len() <= entries@.len(),
        roots_model(r.0.view(), r.1@) == project_roots(entry_paths(entries@)),
        forall|s: Seq<char>| r.2.view().contains(s) <==> seen_stores(entry_paths(entries@)).contains(s),
        r.2.view().len() <= entries@.len(),
{
    let ghost paths = entry_paths(entries@);
    let mut roots = PathTable::new();
    let mut kinds: Vec<ProjectKind> = Vec::new();
    let mut stores = PathTable::new();
    let mut i: usize = 0;
    proof {
        assert(paths.take(0) =~= Seq::<Seq<char>>::empty());
        assert(roots_model(roots.view(), kinds@) =~= Seq::<(Seq<char>, ProjectKind)>::empty());
    }
    while i < entries.len()
        invariant
            names.valid(),
            paths == entry_paths(entries@),
            entries@.len() < NO_ENTRY - 2,
            i <= entries@.len(),
            roots.wf(),
            stores.wf(),
            roots.view().len() == kinds@.len(),
            keyed(roots.view(), kinds@),
            roots.view().len() <= i,
            stores.view().len() <= i,
            roots_model(roots.view(), kinds@) == project_roots(paths.take(i as int)),
            forall|s: Seq<char>|
                stores.view().contains(s) <==> seen_stores(paths.take(i as int)).contains(s),
        decreases entries@.len() - i,
    {
        let p = chars_of(entries[i].path.as_str());
        let ghost before = paths.take(i as int);
        proof {
            assert(paths.take(i + 1) =~= before.push(p@));
            lemma_seen_step(before, p@);
            lemma_roots_step(before, p@);
        }
        match first_store_end(&p, names) {
            Some(k) => {
                proof {
                    lemma_enclosing_store_is(p@, k as int);
                }
                let s = prefix(&p, k);
                add_store(&mut stores, s);
            },
            None => {
                match marked_root_of(&p, names) {
                    Some((d, kind)) => {
                        add_root_exec(&mut roots, &mut kinds, d, kind);
                    },
                    None => {},
                }
            },
        }
        i = i + 1;
    }
    proof {
        assert(paths.take(entries@.len() as int) =~= paths);
    }
    (roots, kinds, stores)
}

/// `root` joined with `name`, if the scan saw that store.
fn seen_join(
    root: &Vec<char>,
    name: &Vec<char>,
    stores: &PathTable,
    Ghost(seen): Ghost<Set<Seq<char>>>,
) -> (r: Vec<Vec<char>>)
    requires
        stores.wf(),
        forall|t: Seq<char>| stores.view().contains(t) <==> seen.contains(t),
    ensures
        char_views(r@) == if_seen(join(root@, name@), seen),
{
    let c = join_chars(root, name);
    let ghost cv = c@;
    let mut r: Vec<Vec<char>> = Vec::new();
    match stores.find(&c) {
        Some(ix) => {
            assert(stores.view().contains(cv));
            r.push(c);
            assert(char_views(r@) =~= seq![cv]);
        },
        None => {
            assert(!stores.view().contains(cv));
            assert(char_views(r@) =~= Seq::<Seq<char>>::empty());
        },
    }
    r
}

/// The stores a project owns that the scan saw.
fn stores_of_exec(
    root: &Vec<char>,
    kind: ProjectKind,
    stores: &PathTable,
    names: &Names,
    Ghost(seen): Ghost<Set<Seq<char>>>,
) -> (r: Vec<Vec<char>>)
    requires
        stores.wf(),
        names.valid(),
        forall|t: Seq<char>| stores.view().contains(t) <==> seen.contains(t),
    ensures
        char_views(r@) == stores_of(root@, kind, seen),
        r@.len() <= 2,
{
    match kind {
        ProjectKind::Cargo => seen_join(root, &names.target, stores, Ghost(seen)),
        ProjectKind::Npm => seen_join(root, &names.node_modules, stores, Ghost(seen)),
        ProjectKind::Python => {
            let mut a = seen_join(root, &names.dot_venv, stores, Ghost(seen));
            let b = seen_join(root, &names.venv, stores, Ghost(seen));
            let ghost av = a@;
            let mut bb = b;
            a.append(&mut bb);
            proof {
                assert(char_views(a@) =~= char_views(av) + char_views(b@));
            }
            a
        },
        ProjectKind::Unknown => {
            let r: Vec<Vec<char>> = Vec::new();
            assert(char_views(r@) =~= Seq::<Seq<char>>::empty());
            r
        },
    }
}

pub proof fn lemma_stores_of_len(root: Seq<char>, kind: ProjectKind, seen: Set<Seq<char>>)
    ensures
        stores_of(root, kind, seen).len() <= 2,
{
}

pub proof fn lemma_shared_store_len(
    q: Seq<char>,
    kind: ProjectKind,
    roots: Seq<(Seq<char>, ProjectKind)>,
    seen: Set<Seq<char>>,
)
    ensures
        shared_store(q, kind, roots, seen).len() <= 2,
    decreases q.len(),
{
    match parent(q) {
        Some(a) => if a.len() < q.len() {
            lemma_stores_of_len(a, kind, seen);
            lemma_shared_store_len(a, kind, roots, seen);
        },
        None => {},
    }
}

/// The stores of the nearest enclosing project of the same kind that owns any.
fn shared_store_exec(
    root: &Vec<char>,
    kind: ProjectKind,
    roots: &PathTable,
    kinds: &Vec<ProjectKind>,
    stores: &PathTable,
    names: &Names,
    Ghost(seen): Ghost<Set<Seq<char>>>,
) -> (r: Vec<Vec<char>>)
    requires
        roots.wf(),
        stores.wf(),
        names.valid(),
        roots.view().len() == kinds@.len(),
        keyed(roots.view(), kinds@),
        forall|t: Seq<char>| stores.view().contains(t) <==> seen.contains(t),
    ensures
        char_views(r@) == shared_store(root@, kind, roots_model(roots.view(), kinds@), seen),
{
    let ghost rs = roots_model(roots.view(), kinds@);
    let fps = prefix_fingerprints(root);
    let mut cur: usize = root.len();
    proof {
        assert(root@.take(root@.len() as int) =~= root@);
        roots.lemma_distinct();
    }
    loop
        invariant
            roots.wf(),
            stores.wf(),
            names.valid(),
            roots.view().len() == kinds@.len(),
            keyed(roots.view(), kinds@),
            rs == roots_model(roots.view(), kinds@),
            forall|t: Seq<char>| stores.view().contains(t) <==> seen.contains(t),
            forall|i: int, j: int|
                0 <= i < roots.view().len() && 0 <= j < roots.view().len() && roots.view()[i]
                    == roots.view()[j] ==> i == j,
            cur <= root@.len(),
            fps@.len() == root@.len() + 1,
            forall|i: int| 0 <= i <= root@.len() ==> #[trigger] fps@[i] == fingerprint(root@.take(i)),
            shared_store(root@.take(cur as int), kind, rs, seen) == shared_store(root@, kind, rs, seen),
        decreases cur,
    {
        let ghost q = root@.take(cur as int);
        match parent_len(root, cur) {
            None => {
                let r: Vec<Vec<char>> = Vec::new();
                assert(char_views(r@) =~= Seq::<Seq<char>>::empty());
                return r;
            },
            Some(l) => {
                let ghost a = root@.take(l as int);
                proof {
                    lemma_parent_shorter(q);
                }
                let above = prefix(root, l);
                let key = root_key_exec(&above, kind);
                let found = roots.find(&key);
                let same_kind = found.is_some();
                proof {
                    match found {
                        Some(ix) => {
                            lemma_root_key_injective(key_dir(roots.view()[ix as int]), kinds@[ix as int], a, kind);
                            assert(rs[ix as int] == (a, kind));
                        },
                        None => {
                            if rs.contains((a, kind)) {
                                let j = choose|j: int| 0 <= j < rs.len() && rs[j] == (a, kind);
                                lemma_root_key_injective(key_dir(roots.view()[j]), kinds@[j], a, kind);
                                assert(roots.view()[j] == root_key(a, kind));
                            }
                        },
                    }
                }
                assert(same_kind == has_root(rs, a, kind));
                if same_kind {
                    let own = stores_of_exec(&above, kind, stores, names, Ghost(seen));
                    if own.len() > 0 {
                        return own;
                    }
                }
                cur = l;
            },
        }
    }
}

// ---------------------------------------------------------------------------
// Project roots and stores never coincide

/// `x` is a project root directory.
pub open spec fn is_root_key(roots: Seq<(Seq<char>, ProjectKind)>, x: Seq<char>) -> bool {
    exists|i: int| 0 <= i < roots.len() && roots[i].0 == x
}

/// `t` names a directory with a store name, under some directory.
pub open spec fn is_store_path(t: Seq<char>) -> bool {
    exists|a: Seq<char>, n: Seq<char>| is_store_name(n) && t == join(a, n)
}

proof fn lemma_store_names_plain(n: Seq<char>)
    requires
        is_store_name(n),
    ensures
        n.len() > 0,
        forall|j: int| 0 <= j < n.len() ==> n[j] != '/',
{
    reveal_strlit("target");
    reveal_strlit("node_modules");
    reveal_strlit(".venv");
    reveal_strlit("venv");
}

/// A directory a marker file marks is never a store directory: a marker
/// directly inside a store sits inside that store, and marks nothing.
proof fn lemma_marked_dir_not_store(p: Seq<char>)
    requires
        marked_root(p) is Some,
    ensures
        !is_store_path(marked_root(p).unwrap().0),
{
    let d = marked_root(p).unwrap().0;
    if is_store_path(d) {
        let (a, n) = choose|a: Seq<char>, n: Seq<char>| is_store_name(n) && d == join(a, n);
        lemma_store_names_plain(n);
        let base = if a.len() > 0 && a.last() == '/' { a } else { a + seq!['/'] };
        assert(d =~= base + n);
        let m = base.len() as int;
        assert(d[m - 1] == '/');
        assert forall|j: int| m - 1 < j < d.len() implies d[j] != '/' by {
            assert(d[j] == n[j - m]);
        }
        lemma_last_sep_is(d, m - 1);
        assert(d.len() >= 2);
        assert(d != seq!['/']);
        lemma_last_sep_bounds(p);
        let s = last_sep(p);
        assert(s > 0) by {
            if s < 0 {
                assert(parent(p) == Some(Seq::<char>::empty()));
            } else if s == 0 {
                assert(parent(p) == Some(seq!['/']));
            }
        }
        assert(p.take(s) == d);
        assert(p.take(s).subrange(last_sep(p.take(s)) + 1, s) =~= n);
        assert(p.subrange(last_sep(p.take(s)) + 1, s) =~= p.take(s).subrange(last_sep(p.take(s)) + 1, s));
        assert(store_end(p, s));
        assert(enclosing_store(p) is Some);
    }
}

/// Some entry is a marker for directory `d`.
pub open spec fn marks_dir(paths: Seq<Seq<char>>, d: Seq<char>) -> bool {
    exists|j: int| 0 <= j < paths.len() && marked_root(paths[j]) == Some((d, marked_root(paths[j]).unwrap().1))
}

/// Every project root comes from a marker some entry is.
proof fn lemma_roots_are_marked(paths: Seq<Seq<char>>)
    ensures
        forall|i: int| 0 <= i < project_roots(paths).len() ==> marks_dir(paths, #[trigger] project_roots(paths)[i].0),
    decreases paths.len(),
{
    if paths.len() > 0 {
        let before = paths.drop_last();
        lemma_roots_are_marked(before);
        let rb = project_roots(before);
        let r = project_roots(paths);
        assert forall|i: int| 0 <= i < r.len() implies marks_dir(paths, #[trigger] r[i].0) by {
            let last_marks = match marked_root(paths.last()) {
                Some((d, k)) => r[i].0 == d,
                None => false,
            };
            if last_marks {
                let j = paths.len() - 1;
                assert(paths[j] == paths.last());
                assert(marked_root(paths[j]) == Some((r[i].0, marked_root(paths[j]).unwrap().1)));
            } else {
                assert(r[i] == rb[i]);
                assert(marks_dir(before, rb[i].0));
                let j = choose|j: int|
                    0 <= j < before.len() && marked_root(before[j]) == Some((rb[i].0, marked_root(before[j]).unwrap().1));
                assert(paths[j] == before[j]);
            }
        }
    }
}

proof fn lemma_stores_of_are_store_paths(root: Seq<char>, kind: ProjectKind, seen: Set<Seq<char>>)
    ensures
        forall|i: int|
            0 <= i < stores_of(root, kind, seen).len() ==> is_store_path(
                #[trigger] stores_of(root, kind, seen)[i],
            ),
{
    let s = stores_of(root, kind, seen);
    assert forall|i: int| 0 <= i < s.len() implies is_store_path(#[trigger] s[i]) by {
        let n = match kind {
            ProjectKind::Cargo => "target"@,
            ProjectKind::Npm => "node_modules"@,
            ProjectKind::Python => if seen.contains(join(root, ".venv"@)) && i == 0 {
                ".venv"@
            } else {
                "venv"@
            },
            ProjectKind::Unknown => "venv"@,
        };
        assert(is_store_name(n) && s[i] == join(root, n));
    }
}

proof fn lemma_shared_are_store_paths(
    q: Seq<char>,
    kind: ProjectKind,
    roots: Seq<(Seq<char>, ProjectKind)>,
    seen: Set<Seq<char>>,
)
    ensures
        forall|i: int|
            0 <= i < shared_store(q, kind, roots, seen).len() ==> is_store_path(
                #[trigger] shared_store(q, kind, roots, seen)[i],
            ),
    decreases q.len(),
{
    match parent(q) {
        Some(a) => if a.len() < q.len() {
            lemma_stores_of_are_store_paths(a, kind, seen);
            lemma_shared_are_store_paths(a, kind, roots, seen);
            let r = shared_store(q, kind, roots, seen);
            assert forall|i: int| 0 <= i < r.len() implies is_store_path(#[trigger] r[i]) by {
                if has_root(roots, a, kind) && stores_of(a, kind, seen).len() > 0 {
                    assert(r[i] == stores_of(a, kind, seen)[i]);
                } else {
                    assert(r[i] == shared_store(a, kind, roots, seen)[i]);
                }
            }
        },
        None => {},
    }
}

proof fn lemma_targets_are_store_paths(
    root: (Seq<char>, ProjectKind),
    roots: Seq<(Seq<char>, ProjectKind)>,
    seen: Set<Seq<char>>,
)
    ensures
        forall|i: int|
            0 <= i < targets(root, roots, seen).len() ==> is_store_path(
                #[trigger] targets(root, roots, seen)[i],
            ),
{
    lemma_stores_of_are_store_paths(root.0, root.1, seen);
    lemma_shared_are_store_paths(root.0, root.1, roots, seen);
}

/// No project root directory is a store path.
proof fn lemma_roots_not_stores(paths: Seq<Seq<char>>)
    ensures
        forall|t: Seq<char>| is_store_path(t) ==> !is_root_key(project_roots(paths), t),
{
    lemma_roots_are_marked(paths);
    let r = project_roots(paths);
    assert forall|t: Seq<char>| is_store_path(t) implies !is_root_key(r, t) by {
        if is_root_key(r, t) {
            let i = choose|i: int| 0 <= i < r.len() && r[i].0 == t;
            assert(marks_dir(paths, r[i].0));
            let j = choose|j: int|
                0 <= j < paths.len() && marked_root(paths[j]) == Some((r[i].0, marked_root(paths[j]).unwrap().1));
            lemma_marked_dir_not_store(paths[j]);
        }
    }
}

// ---------------------------------------------------------------------------
// The graph

/// The most entries one graph is built from: petgraph's `u32` node and
/// edge indices bound the graph, each entry adds at most two edges, and
/// each edge at most two nodes, so this is a quarter of that limit.
pub const MAX_ENTRIES: usize = 1_073_741_823;

pub struct ImpactGraph {
    pub graph: DiGraph<Node, Edge>,
    /// Key path of every node; node `i` of `graph` has key `index[i]`.
    index: PathTable,
    /// Whether node `i` is a project root.
    projects: Vec<bool>,
}

impl ImpactGraph {
    /// The nodes, in index order: key path and whether it is a project root.
    pub closed spec fn nodes(&self) -> Seq<(Seq<char>, bool)> {
        graph_nodes(self.graph)
    }

    /// The edges, as (source index, target index), in insertion order.
    pub closed spec fn edges(&self) -> Seq<(int, int)> {
        graph_edges(self.graph)
    }

    /// The key paths of the nodes, in index order.
    pub closed spec fn keys(&self) -> Seq<Seq<char>> {
        graph_nodes(self.graph).map_values(|n: (Seq<char>, bool)| n.0)
    }

    /// Each edge as (source key, target key).
    pub closed spec fn links(&self) -> Seq<(Seq<char>, Seq<char>)> {
        graph_edges(self.graph).map_values(
            |e: (int, int)| (graph_nodes(self.graph)[e.0].0, graph_nodes(self.graph)[e.1].0),
        )
    }

    /// How many projects reference `path`: the project edges into the node
    /// nearest it, 0 when no node is.
    pub closed spec fn spec_referencing(&self, path: Seq<char>) -> nat {
        match nearest_in(self.keys(), path) {
            Some(ix) => incoming_projects(graph_nodes(self.graph), graph_edges(self.graph), ix),
            None => 0,
        }
    }

    /// Every edge runs from a project-root node to a store node.
    pub closed spec fn sources_are_projects(&self) -> bool {
        let nodes = graph_nodes(self.graph);
        let edges = graph_edges(self.graph);
        forall|e: int|
            0 <= e < edges.len() ==> nodes[#[trigger] edges[e].0].1 && !nodes[edges[e].1].1
    }

    pub closed spec fn wf(&self) -> bool {
        let nodes = graph_nodes(self.graph);
        let edges = graph_edges(self.graph);
        &&& self.index.wf()
        &&& self.index.view() == self.keys()
        &&& self.projects@.len() == nodes.len()
        &&& forall|i: int| 0 <= i < nodes.len() ==> #[trigger] self.projects@[i] == nodes[i].1
        &&& nodes.len() < u32::MAX
        &&& forall|e: int|
            0 <= e < edges.len() ==> 0 <= #[trigger] edges[e].0 < nodes.len() && 0 <= edges[e].1
                < nodes.len()
    }

    /// A graph with no nodes.
    pub fn new() -> (g: ImpactGraph)
        ensures
            g.wf(),
            g.keys() == Seq::<Seq<char>>::empty(),
            g.links() == Seq::<(Seq<char>, Seq<char>)>::empty(),
            g.nodes().len() == 0,
            g.edges().len() == 0,
    {
        let g = ImpactGraph { graph: new_graph(), index: PathTable::new(), projects: Vec::new() };
        assert(g.keys() =~= Seq::<Seq<char>>::empty());
        assert(g.links() =~= Seq::<(Seq<char>, Seq<char>)>::empty());
        g
    }

    /// Build the graph from one pass over the scanned entries.
    ///
    /// Two things come out of that pass: which directories are project
    /// roots (they hold a marker file), and which are dependency stores
    /// (an entry lives under one). A `References` edge is added for each
    /// project to each store it owns. A directory holding markers of two
    /// kinds is a project of both, whatever order the walk saw them in.
    ///
    /// A project whose own store wasn't scanned is linked to the nearest
    /// enclosing project's store of the same kind instead: npm workspaces
    /// hoist dependencies to the repository root and Cargo workspaces share
    /// one `target/`, so the members really do reference it.
    pub fn from_entries(entries: &Vec<FileEntry>) -> (g: ImpactGraph)
        requires
            entries@.len() <= MAX_ENTRIES,
        ensures
            g.wf(),
            g.sources_are_projects(),
            g.links() == spec_links(entry_paths(entries@)),
            g.nodes_are_linked(),
    {
        let names = Names::new();
        let (roots, kinds, stores) = collect(entries, &names);
        let ghost paths = entry_paths(entries@);
        let ghost rs = roots_model(roots.view(), kinds@);
        let ghost seen = seen_stores(paths);
        proof {
            lemma_roots_not_stores(paths);
        }
        let mut g = ImpactGraph::new();
        proof {
            assert forall|k: Seq<char>| g.keys().contains(k) <==> linked(g.links(), k) by {
                assert(g.keys().len() == 0);
                assert(g.links().len() == 0);
            }
        }
        let n = roots.len();
        let mut ri: usize = 0;
        while ri < n
            invariant
                roots.wf(),
                stores.wf(),
                names.valid(),
                n == roots.view().len(),
                roots.view().len() == kinds@.len(),
                keyed(roots.view(), kinds@),
                n <= MAX_ENTRIES,
                rs == roots_model(roots.view(), kinds@),
                forall|t: Seq<char>| stores.view().contains(t) <==> seen.contains(t),
                ri <= n,
                g.wf(),
                g.links() == links_upto(rs, seen, ri as int),
                rs == project_roots(paths),
                forall|t: Seq<char>| is_store_path(t) ==> !is_root_key(rs, t),
                forall|k: int|
                    0 <= k < graph_nodes(g.graph).len() ==> #[trigger] graph_nodes(g.graph)[k].1
                        == is_root_key(rs, graph_nodes(g.graph)[k].0),
                g.sources_are_projects(),
                g.nodes_are_linked(),
                graph_edges(g.graph).len() <= 2 * ri,
                graph_nodes(g.graph).len() <= 2 * graph_edges(g.graph).len(),
            decreases n - ri,
        {
            let rkey = roots.key(ri);
            let kind = kinds[ri];
            proof {
                assert(roots.view()[ri as int] == root_key(key_dir(roots.view()[ri as int]), kinds@[ri as int]));
            }
            let root_dir = prefix(rkey, rkey.len() - 2);
            let root = &root_dir;
            let own = stores_of_exec(root, kind, &stores, &names, Ghost(seen));
            let tg = if own.len() > 0 {
                own
            } else {
                proof {
                    lemma_shared_store_len(root@, kind, rs, seen);
                }
                shared_store_exec(root, kind, &roots, &kinds, &stores, &names, Ghost(seen))
            };
            let ghost tv = char_views(tg@);
            proof {
                assert(rs[ri as int] == (root@, kind));
                assert(tv == targets(rs[ri as int], rs, seen));
                lemma_targets_are_store_paths(rs[ri as int], rs, seen);
                assert(is_root_key(rs, root@));
            }
            let mut ti: usize = 0;
            while ti < tg.len()
                invariant
                    ri < n,
                    n <= MAX_ENTRIES,
                    tv == char_views(tg@),
                    tg@.len() <= 2,
                    ti <= tg@.len(),
                    g.wf(),
                    g.links() == links_upto(rs, seen, ri as int) + tv.take(ti as int).map_values(
                        |t: Seq<char>| (root@, t),
                    ),
                    graph_edges(g.graph).len() <= 2 * ri + ti,
                    graph_nodes(g.graph).len() <= 2 * graph_edges(g.graph).len(),
                    forall|t: Seq<char>| is_store_path(t) ==> !is_root_key(rs, t),
                    forall|k: int| 0 <= k < tv.len() ==> is_store_path(#[trigger] tv[k]),
                    is_root_key(rs, root@),
                    forall|k: int|
                        0 <= k < graph_nodes(g.graph).len() ==> #[trigger] graph_nodes(g.graph)[k].1
                            == is_root_key(rs, graph_nodes(g.graph)[k].0),
                    g.sources_are_projects(),
                    g.nodes_are_linked(),
                decreases tg@.len() - ti,
            {
                let ghost links0 = g.links();
                let ghost keys0 = g.keys();
                let ghost nodes0 = graph_nodes(g.graph);
                let from = g.node(Node::ProjectRoot { path: string_from(root), kind });
                let ghost keys_mid = g.keys();
                let to = g.node(Node::DependencyStore(string_from(&tg[ti])));
                let ghost keys1 = g.keys();
                let ghost nodes1 = graph_nodes(g.graph);
                add_graph_edge(&mut g.graph, from, to, Edge::References);
                proof {
                    assert(g.keys() == keys1);
                    assert(g.links() =~= links0.push((root@, tv[ti as int])));
                    lemma_linked_push(keys0, keys_mid, keys1, links0, g.links(), root@, tv[ti as int]);
                }
                proof {
                    assert(nodes0.len() <= nodes1.len());
                    assert forall|k: int| 0 <= k < nodes0.len() implies nodes1[k] == nodes0[k] by {}
                    assert(nodes1[from as int].0 == root@);
                    assert(nodes1[to as int].0 == tv[ti as int]);
                    assert(is_store_path(tv[ti as int]));
                    assert(nodes1[from as int].1);
                    assert(!nodes1[to as int].1);
                    assert(g.links() =~= links0.push((root@, tv[ti as int])));
                    assert(tv.take(ti + 1).map_values(|t: Seq<char>| (root@, t)) =~= tv.take(
                        ti as int,
                    ).map_values(|t: Seq<char>| (root@, t)).push((root@, tv[ti as int])));
                }
                ti = ti + 1;
            }
            proof {
                assert(tv.take(tv.len() as int) =~= tv);
                assert(links_upto(rs, seen, ri + 1) == links_upto(rs, seen, ri as int) + tv.map_values(
                    |t: Seq<char>| (root@, t),
                ));
            }
            ri = ri + 1;
        }
        g
    }

    /// The node for `node`'s path, added if the graph has none yet. A path
    /// that already has a node keeps it, whatever variant it was added as.
    pub fn node(&mut self, node: Node) -> (ix: usize)
        requires
            old(self).wf(),
            old(self).nodes().len() + 1 < u32::MAX,
        ensures
            final(self).wf(),
            ix < final(self).nodes().len(),
            final(self).keys()[ix as int] == node.key(),
            final(self).edges() == old(self).edges(),
            old(self).keys().contains(node.key()) ==> final(self).nodes() == old(self).nodes(),
            !old(self).keys().contains(node.key()) ==> final(self).nodes()
                == old(self).nodes().push((node.key(), node.is_project())),
            forall|k: Seq<char>| #[trigger] final(self).keys().contains(k) <==> old(self).keys().contains(k) || k == node.key(),
    {
        let key = node.key_chars();
        let ghost old_nodes = graph_nodes(self.graph);
        let (ix, added) = self.index.insert(key);
        if !added {
            proof {
                assert(self.keys()[ix as int] == node.key());
                assert(self.keys() == old(self).keys());
            }
            return ix;
        }
        let project = node.is_project();
        let is_new = add_graph_node(&mut self.graph, node);
        self.projects.push(project);
        proof {
            assert(self.keys() =~= old(self).keys().push(node.key()));
            assert forall|k: Seq<char>| #[trigger] self.keys().contains(k) <==> old(self).keys().contains(k) || k == node.key() by {
                if self.keys().contains(k) {
                    let j = choose|j: int| 0 <= j < self.keys().len() && self.keys()[j] == k;
                    if j < old(self).keys().len() {
                        assert(old(self).keys()[j] == k);
                    }
                }
                if old(self).keys().contains(k) {
                    let j = choose|j: int| 0 <= j < old(self).keys().len() && old(self).keys()[j] == k;
                    assert(self.keys()[j] == k);
                }
                if k == node.key() {
                    assert(self.keys()[self.keys().len() - 1] == k);
                }
            }
            if old(self).keys().contains(node.key()) {
                let j = choose|j: int| 0 <= j < old(self).keys().len() && old(self).keys()[j] == node.key();
                assert(old(self).index.view()[j] == node.key());
            }
        }
        ix
    }

    /// How many project roots have an edge into node `ix`.
    fn projects_into(&self, ix: usize) -> (n: usize)
        requires
            self.wf(),
            ix < graph_nodes(self.graph).len(),
        ensures
            n == incoming_projects(graph_nodes(self.graph), graph_edges(self.graph), ix as int),
    {
        let srcs = incoming_neighbors(&self.graph, ix);
        let ghost nodes = graph_nodes(self.graph);
        let ghost s = incoming_sources(graph_edges(self.graph), ix as int);
        proof {
            lemma_incoming_counts(nodes, graph_edges(self.graph), ix as int);
            assert(srcs@.map_values(|n: usize| n as int).len() == srcs@.len());
        }
        let len = srcs.len();
        let mut n: usize = 0;
        let mut k: usize = len;
        proof {
            assert(s.take(0) =~= Seq::<int>::empty());
        }
        while k > 0
            invariant
                self.wf(),
                nodes == graph_nodes(self.graph),
                len == srcs@.len(),
                s.len() == len,
                srcs@.map_values(|n: usize| n as int) == s.reverse(),
                forall|j: int| 0 <= j < s.len() ==> 0 <= #[trigger] s[j] < nodes.len(),
                k <= len,
                n == count_flagged(nodes, s.take(len - k)),
                n <= len - k,
            decreases k,
        {
            let src = srcs[k - 1];
            proof {
                assert(srcs@.map_values(|n: usize| n as int)[k - 1] == src as int);
                assert(s.reverse()[k - 1] == s[len - k]);
                assert(s.take(len - k + 1).drop_last() =~= s.take(len - k));
                assert(s.take(len - k + 1).last() == s[len - k]);
            }
            if self.projects[src] {
                n = n + 1;
            }
            k = k - 1;
        }
        proof {
            assert(s.take(len as int) =~= s);
        }
        n
    }

    /// How many project roots reference this path. This number feeds
    /// `risk::downgrade` — the "breaks 17 projects" number.
    ///
    /// Answers for the nearest enclosing node as well as for the path
    /// itself, because findings are files and the thing projects reference
    /// is the store above them.
    pub fn referencing_projects(&self, path: &str) -> (n: usize)
        requires
            self.wf(),
        ensures
            n == self.spec_referencing(path@),
    {
        let p = chars_of(path);
        let fps = prefix_fingerprints(&p);
        let mut cur: usize = p.len();
        proof {
            assert(p@.take(p@.len() as int) =~= p@);
        }
        loop
            invariant
                self.wf(),
                cur <= p@.len(),
                fps@.len() == p@.len() + 1,
                forall|i: int| 0 <= i <= p@.len() ==> #[trigger] fps@[i] == fingerprint(p@.take(i)),
                nearest_in(self.keys(), p@.take(cur as int)) == nearest_in(self.keys(), path@),
            decreases cur,
        {
            let found = self.index.find_prefix(&p, cur, fps[cur]);
            match found {
                Some(ix) => {
                    proof {
                        self.index.lemma_distinct();
                        let t = p@.take(cur as int);
                        let c = choose|i: int| 0 <= i < self.keys().len() && self.keys()[i] == t;
                        assert(self.keys()[ix as int] == t);
                    }
                    return self.projects_into(ix);
                },
                None => {
                    match parent_len(&p, cur) {
                        Some(up) => {
                            proof {
                                lemma_parent_shorter(p@.take(cur as int));
                            }
                            cur = up;
                        },
                        None => {
                            return 0;
                        },
                    }
                },
            }
        }
    }
}

/// The node `nearest_in` picks is one of the keys.
pub proof fn lemma_nearest_in_range(keys: Seq<Seq<char>>, p: Seq<char>)
    ensures
        nearest_in(keys, p) matches Some(i) ==> 0 <= i < keys.len(),
    decreases p.len(),
{
    if !(exists|i: int| 0 <= i < keys.len() && keys[i] == p) {
        match parent(p) {
            Some(q) => if q.len() < p.len() {
                lemma_nearest_in_range(keys, q);
            },
            None => {},
        }
    }
}

proof fn lemma_counts_agree(
    nodes: Seq<(Seq<char>, bool)>,
    edges: Seq<(int, int)>,
    ix: int,
)
    requires
        0 <= ix < nodes.len(),
        forall|i: int, j: int|
            0 <= i < nodes.len() && 0 <= j < nodes.len() && nodes[i].0 == nodes[j].0 ==> i == j,
        forall|e: int|
            0 <= e < edges.len() ==> 0 <= #[trigger] edges[e].0 < nodes.len() && 0 <= edges[e].1
                < nodes.len() && nodes[edges[e].0].1,
    ensures
        incoming_projects(nodes, edges, ix) == links_into(
            edges.map_values(|e: (int, int)| (nodes[e.0].0, nodes[e.1].0)),
            nodes[ix].0,
        ),
    decreases edges.len(),
{
    let f = |e: (int, int)| (nodes[e.0].0, nodes[e.1].0);
    if edges.len() > 0 {
        let t = edges.drop_last();
        assert forall|e: int| 0 <= e < t.len() implies 0 <= #[trigger] t[e].0 < nodes.len() && 0
            <= t[e].1 < nodes.len() && nodes[t[e].0].1 by {
            assert(t[e] == edges[e]);
        }
        lemma_counts_agree(nodes, t, ix);
        assert(edges.map_values(f).drop_last() =~= t.map_values(f));
        assert(edges.last() == edges[edges.len() - 1]);
    }
}


proof fn lemma_linked_push(
    keys0: Seq<Seq<char>>,
    keys_mid: Seq<Seq<char>>,
    keys1: Seq<Seq<char>>,
    links0: Seq<(Seq<char>, Seq<char>)>,
    l1: Seq<(Seq<char>, Seq<char>)>,
    a: Seq<char>,
    b: Seq<char>,
)
    requires
        forall|k: Seq<char>| keys0.contains(k) <==> linked(links0, k),
        forall|k: Seq<char>| #[trigger] keys_mid.contains(k) <==> keys0.contains(k) || k == a,
        forall|k: Seq<char>| #[trigger] keys1.contains(k) <==> keys_mid.contains(k) || k == b,
        l1 == links0.push((a, b)),
    ensures
        forall|k: Seq<char>| keys1.contains(k) <==> linked(l1, k),
{
    assert forall|e: int| 0 <= e < links0.len() implies #[trigger] l1[e] == links0[e] by {}
    assert(l1.len() == links0.len() + 1);
    assert(l1[links0.len() as int] == (a, b));
    assert forall|k: Seq<char>| keys1.contains(k) implies linked(l1, k) by {
        if !linked(l1, k) {
            assert forall|e: int| 0 <= e < links0.len() implies !(#[trigger] links0[e].0 == k || links0[e].1 == k) by {
                assert(l1[e] == links0[e]);
                assert(!(l1[e].0 == k || l1[e].1 == k));
            }
            assert(!linked(links0, k));
            let last = links0.len() as int;
            assert(!(l1[last].0 == k || l1[last].1 == k));
        }
    }
    assert forall|k: Seq<char>| linked(l1, k) implies keys1.contains(k) by {
        let e = choose|e: int| 0 <= e < l1.len() && (#[trigger] l1[e].0 == k || l1[e].1 == k);
        if e < links0.len() {
            assert(l1[e] == links0[e]);
            assert(links0[e].0 == k || links0[e].1 == k);
            assert(linked(links0, k));
            assert(keys0.contains(k));
            assert(keys_mid.contains(k));
        } else {
            assert(k == a || k == b);
            if k == a {
                assert(keys_mid.contains(k));
            }
        }
    }
}

proof fn lemma_nearest_agree(keys: Seq<Seq<char>>, links: Seq<(Seq<char>, Seq<char>)>, p: Seq<char>)
    requires
        forall|k: Seq<char>| keys.contains(k) <==> linked(links, k),
    ensures
        match nearest_in(keys, p) {
            Some(ix) => nearest_linked(links, p) == Some(keys[ix]),
            None => nearest_linked(links, p) is None,
        },
    decreases p.len(),
{
    if exists|i: int| 0 <= i < keys.len() && keys[i] == p {
        assert(keys.contains(p));
        assert(linked(links, p));
    } else {
        assert(!keys.contains(p));
        assert(!linked(links, p));
        match parent(p) {
            Some(q) => if q.len() < p.len() {
                lemma_nearest_agree(keys, links, q);
            },
            None => {},
        }
    }
}

impl ImpactGraph {
    /// The nodes are exactly the ends of the links: no node stands alone.
    pub open spec fn nodes_are_linked(&self) -> bool {
        forall|k: Seq<char>| self.keys().contains(k) <==> linked(self.links(), k)
    }

    /// In a graph whose nodes are the ends of its links, how many
    /// projects reference a path is a function of the links alone.
    pub proof fn lemma_referencing_from_links(&self, path: Seq<char>)
        requires
            self.wf(),
            self.sources_are_projects(),
            self.nodes_are_linked(),
        ensures
            self.spec_referencing(path) == references_to(self.links(), path),
    {
        self.lemma_referencing_counts_links(path);
        lemma_nearest_agree(self.keys(), self.links(), path);
    }

    /// The number of projects `referencing_projects` reports for a path
    /// is the number of (project, store) references whose store is the node
    /// nearest that path — 0 when that node is a project, or there is none.
    pub proof fn lemma_referencing_counts_links(&self, path: Seq<char>)
        requires
            self.wf(),
            self.sources_are_projects(),
        ensures
            self.spec_referencing(path) == match nearest_in(self.keys(), path) {
                Some(ix) => links_into(self.links(), self.keys()[ix]),
                None => 0,
            },
    {
        match nearest_in(self.keys(), path) {
            Some(ix) => {
                let nodes = graph_nodes(self.graph);
                let edges = graph_edges(self.graph);
                self.index.lemma_distinct();
                lemma_nearest_in_range(self.keys(), path);
                assert forall|i: int, j: int|
                    0 <= i < nodes.len() && 0 <= j < nodes.len() && nodes[i].0 == nodes[j].0 implies i == j by {
                    assert(self.index.view()[i] == nodes[i].0);
                    assert(self.index.view()[j] == nodes[j].0);
                }
                lemma_counts_agree(nodes, edges, ix);
                assert(self.links() =~= edges.map_values(|e: (int, int)| (nodes[e.0].0, nodes[e.1].0)));
            },
            None => {},
        }
    }
}

} // verus!
