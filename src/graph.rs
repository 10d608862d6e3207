//! The dependency graph: one node per file path, at most one edge per ordered
//! pair of files. Edges live in a petgraph graph indexed by `usize`; the path
//! of each node and the path-to-index map are held beside it.
use crate::imports::{imports_of_file, scanned_imports};
use crate::paths::{file_name_of, file_name_spec, normal_path, normalize_path, views};
use crate::resolve::{
    candidate_at, first_known, import_base, import_base_of, is_relative, is_relative_import,
    lemma_resolved_is_known, resolve_spec, CANDIDATE_COUNT,
};
use petgraph::graph::{Graph, NodeIndex};
use petgraph::{Directed, Direction};
use vstd::hash_map::StringHashMap;
use vstd::multiset::Multiset;
use vstd::prelude::*;

verus! {

#[verifier::external_type_specification]
#[verifier::external_body]
#[verifier::reject_recursive_types(N)]
#[verifier::reject_recursive_types(E)]
#[verifier::reject_recursive_types(Ty)]
#[verifier::reject_recursive_types(Ix)]
pub struct ExGraph<N, E, Ty, Ix>(Graph<N, E, Ty, Ix>);

#[verifier::external_type_specification]
#[verifier::external_body]
pub struct ExDirected(Directed);

/// The edges of a petgraph graph, as pairs of node indices, with multiplicity.
pub uninterp spec fn arena_edges(g: Graph<(), (), Directed, usize>) -> Multiset<(usize, usize)>;

/// The number of nodes of a petgraph graph.
pub uninterp spec fn arena_size(g: Graph<(), (), Directed, usize>) -> nat;

/// Relies on petgraph's `Graph::with_capacity`: a graph with no nodes and no edges.
#[verifier::external_body]
fn new_arena() -> (g: Graph<(), (), Directed, usize>)
    ensures
        arena_size(g) == 0,
        arena_edges(g) == Multiset::<(usize, usize)>::empty(),
{
    Graph::with_capacity(0, 0)
}

/// Relies on petgraph's `Graph::add_node`: the new node's index is the former
/// node count; edges are kept. With `usize` indices it does not panic.
#[verifier::external_body]
fn arena_add_node(g: &mut Graph<(), (), Directed, usize>) -> (i: usize)
    ensures
        i == arena_size(*old(g)),
        arena_size(*final(g)) == arena_size(*old(g)) + 1,
        arena_edges(*final(g)) == arena_edges(*old(g)),
{
    g.add_node(()).index()
}

/// Relies on petgraph's `Graph::update_edge`: adds an edge `a -> b` unless one
/// exists already (then only its weight is rewritten). Panics on a missing node.
#[verifier::external_body]
fn arena_update_edge(g: &mut Graph<(), (), Directed, usize>, a: usize, b: usize)
    requires
        a < arena_size(*old(g)),
        b < arena_size(*old(g)),
    ensures
        arena_size(*final(g)) == arena_size(*old(g)),
        arena_edges(*final(g)) == (if arena_edges(*old(g)).count((a, b)) > 0 {
            arena_edges(*old(g))
        } else {
            arena_edges(*old(g)).insert((a, b))
        }),
{
    g.update_edge(NodeIndex::new(a), NodeIndex::new(b), ());
}

/// Relies on petgraph's `Graph::neighbors_directed` on a directed graph: one
/// entry for each edge out of `a` (or into `a`), a self-loop included; empty
/// when `a` is not a node.
#[verifier::external_body]
fn arena_neighbors(g: &Graph<(), (), Directed, usize>, a: usize, outgoing: bool) -> (r: Vec<
    usize,
>)
    ensures
        forall|v: usize| #[trigger]
            r@.to_multiset().count(v) == arena_edges(*g).count(edge_key(outgoing, a, v)),
{
    let dir = if outgoing {
        Direction::Outgoing
    } else {
        Direction::Incoming
    };
    g.neighbors_directed(NodeIndex::new(a), dir).map(|n| n.index()).collect()
}

/// The edge between `a` and `v`: out of `a` when `out`, else into it.
pub open spec fn edge_key(out: bool, a: usize, v: usize) -> (usize, usize) {
    if out {
        (a, v)
    } else {
        (v, a)
    }
}

/// A node of the graph: a file path and its file name.
pub struct FileNode {
    pub path: String,
    pub name: String,
}

/// The mathematical graph: node paths by identity, identities by path, and the
/// set of edges between identities.
#[verifier::ext_equal]
pub struct GraphView {
    pub paths: Seq<Seq<char>>,
    pub ids: Map<Seq<char>, usize>,
    pub edges: Set<(usize, usize)>,
}

impl GraphView {
    pub open spec fn empty() -> GraphView {
        GraphView { paths: seq![], ids: map![], edges: set![] }
    }

    /// Paths and identities are inverse; edges join existing nodes.
    pub open spec fn wf(self) -> bool {
        &&& forall|i: int|
            #![trigger self.paths[i]]
            0 <= i < self.paths.len() ==> self.ids.contains_key(self.paths[i]) && self.ids[self.paths[i]]
                == i
        &&& forall|p: Seq<char>| #[trigger]
            self.ids.contains_key(p) ==> (self.ids[p] as int) < self.paths.len()
                && self.paths[self.ids[p] as int] == p
        &&& forall|a: usize, b: usize| #[trigger]
            self.edges.contains((a, b)) ==> (a as int) < self.paths.len() && (b as int)
                < self.paths.len()
    }

    /// Inserting a node: the existing identity when `p` is present, else a new one.
    pub open spec fn add_node(self, p: Seq<char>) -> (GraphView, usize) {
        if self.ids.contains_key(p) {
            (self, self.ids[p])
        } else {
            (
                GraphView {
                    paths: self.paths.push(p),
                    ids: self.ids.insert(p, self.paths.len() as usize),
                    edges: self.edges,
                },
                self.paths.len() as usize,
            )
        }
    }

    /// Inserting an edge `p -> q`, inserting missing endpoints first.
    pub open spec fn add_edge(self, p: Seq<char>, q: Seq<char>) -> GraphView {
        let (g1, a) = self.add_node(p);
        let (g2, b) = g1.add_node(q);
        GraphView { edges: g2.edges.insert((a, b)), ..g2 }
    }

    pub open spec fn has_edge(self, p: Seq<char>, q: Seq<char>) -> bool {
        &&& self.ids.contains_key(p)
        &&& self.ids.contains_key(q)
        &&& self.edges.contains((self.ids[p], self.ids[q]))
    }

    /// The paths that `p` imports.
    pub open spec fn outgoing(self, p: Seq<char>) -> Set<Seq<char>> {
        Set::new(|q: Seq<char>| self.has_edge(p, q))
    }

    /// The paths that import `q`.
    pub open spec fn incoming(self, q: Seq<char>) -> Set<Seq<char>> {
        Set::new(|p: Seq<char>| self.has_edge(p, q))
    }
}

/// A directed graph of "imports" relations between project files.
pub struct ProjectGraph {
    graph: Graph<(), (), Directed, usize>,
    nodes: Vec<FileNode>,
    node_map: StringHashMap<usize>,
}

proof fn lemma_no_dup_from_counts(s: Seq<usize>)
    requires
        forall|v: usize| s.to_multiset().count(v) <= 1,
    ensures
        s.no_duplicates(),
    decreases s.len(),
{
    broadcast use vstd::seq_lib::group_to_multiset_ensures;
    broadcast use vstd::multiset::group_multiset_axioms;

    if s.len() > 0 {
        let t = s.drop_last();
        let x = s.last();
        assert(t.push(x) =~= s);
        assert(s.to_multiset() =~= t.to_multiset().insert(x));
        assert forall|v: usize| t.to_multiset().count(v) <= 1 by {
            assert(s.to_multiset().count(v) >= t.to_multiset().count(v));
        }
        lemma_no_dup_from_counts(t);
        assert(s.to_multiset().count(x) == t.to_multiset().count(x) + 1);
        assert(t.to_multiset().count(x) == 0);
        assert(!t.contains(x));
        assert forall|i: int, j: int|
            0 <= i < s.len() && 0 <= j < s.len() && i != j implies s[i] != s[j] by {
            if i < t.len() && j < t.len() {
                assert(s[i] == t[i] && s[j] == t[j]);
            } else if i < t.len() {
                assert(s[i] == t[i]);
            } else {
                assert(s[j] == t[j]);
            }
        }
    }
}

impl ProjectGraph {
    pub closed spec fn view(&self) -> GraphView {
        GraphView {
            paths: self.nodes@.map_values(|n: FileNode| n.path@),
            ids: self.node_map@,
            edges: Set::new(|e: (usize, usize)| arena_edges(self.graph).count(e) > 0),
        }
    }

    /// The graph is well formed: its view is, each edge is held once, and
    /// each node's name is the file name of its path.
    pub closed spec fn wf(&self) -> bool {
        &&& self.view().wf()
        &&& arena_size(self.graph) == self.nodes@.len()
        &&& forall|e: (usize, usize)| #[trigger] arena_edges(self.graph).count(e) <= 1
        &&& forall|i: int|
            0 <= i < self.nodes@.len() ==> #[trigger] self.nodes@[i].name@ == file_name_spec(
                self.nodes@[i].path@,
            )
    }

    /// An empty graph.
    pub fn new() -> (r: ProjectGraph)
        ensures
            r.wf(),
            r.view() =~= GraphView::empty(),
    {
        let r = ProjectGraph {
            graph: new_arena(),
            nodes: Vec::new(),
            node_map: StringHashMap::new(),
        };
        assert(r.view().paths =~= Seq::<Seq<char>>::empty());
        assert(r.view().edges =~= Set::<(usize, usize)>::empty());
        r
    }

    fn add_node_key(&mut self, p: String) -> (r: usize)
        requires
            old(self).wf(),
        ensures
            final(self).wf(),
            (final(self).view(), r) == old(self).view().add_node(p@),
    {
        match self.node_map.get(p.as_str()) {
            Some(i) => {
                let i = *i;
                i
            },
            None => {
                let ghost g0 = self.view();
                let name = file_name_of(p.as_str());
                let i = arena_add_node(&mut self.graph);
                self.node_map.insert(p.clone(), i);
                self.nodes.push(FileNode { path: p, name });
                let ghost g1 = self.view();
                assert(g1.paths =~= g0.paths.push(p@));
                assert(g1.edges =~= g0.edges);
                assert(g1 =~= g0.add_node(p@).0);
                assert forall|i: int|
                    #![trigger g1.paths[i]]
                    0 <= i < g1.paths.len() implies g1.ids.contains_key(g1.paths[i])
                    && g1.ids[g1.paths[i]] == i by {
                    if i < g0.paths.len() {
                        assert(g1.paths[i] == g0.paths[i]);
                    }
                }
                assert forall|i: int| 0 <= i < self.nodes@.len() implies #[trigger] self.nodes@[i].name@
                    == file_name_spec(self.nodes@[i].path@) by {
                    if i < self.nodes@.len() - 1 {
                        assert(self.nodes@[i] == old(self).nodes@[i]);
                    }
                }
                i
            },
        }
    }

    fn add_edge_key(&mut self, from: &String, to: &String)
        requires
            old(self).wf(),
        ensures
            final(self).wf(),
            final(self).view() == old(self).view().add_edge(from@, to@),
    {
        let a = self.add_node_key(from.clone());
        assert(self.view().paths.len() == self.nodes@.len());
        assert((a as int) < self.nodes@.len());
        let ghost n1 = self.nodes@.len();
        let b = self.add_node_key(to.clone());
        assert(self.view().paths.len() == self.nodes@.len());
        assert(n1 <= self.nodes@.len());
        assert((b as int) < self.nodes@.len());
        let ghost g2 = self.view();
        let ghost m2 = arena_edges(self.graph);
        arena_update_edge(&mut self.graph, a, b);
        let ghost g3 = self.view();
        assert(g3.edges =~= g2.edges.insert((a, b)));
        assert(g3 =~= GraphView { edges: g2.edges.insert((a, b)), ..g2 });
        proof {
            broadcast use vstd::multiset::group_multiset_axioms;

            assert forall|e: (usize, usize)| #[trigger] arena_edges(self.graph).count(e) <= 1 by {
                if m2.count((a, b)) == 0 && e == (a, b) {
                    assert(arena_edges(self.graph).count(e) == m2.count(e) + 1);
                }
            }
        }
    }

    /// Inserts a node for `path` (in normal form) unless one is there; returns
    /// its identity.
    pub fn add_file(&mut self, path: String) -> (r: usize)
        requires
            old(self).wf(),
        ensures
            final(self).wf(),
            (final(self).view(), r) == old(self).view().add_node(normal_path(path@)),
    {
        let p = normalize_path(path.as_str());
        self.add_node_key(p)
    }

    /// Inserts the edge `from -> to` (both in normal form) unless it is there,
    /// inserting missing nodes first.
    pub fn add_dependency(&mut self, from: String, to: String)
        requires
            old(self).wf(),
        ensures
            final(self).wf(),
            final(self).view() == old(self).view().add_edge(normal_path(from@), normal_path(to@)),
    {
        let f = normalize_path(from.as_str());
        let t = normalize_path(to.as_str());
        self.add_edge_key(&f, &t)
    }

    /// Whether a node has the path `path` exactly.
    pub fn contains_file(&self, path: &str) -> (r: bool)
        requires
            self.wf(),
        ensures
            r == self.view().ids.contains_key(path@),
    {
        self.node_map.contains_key(path)
    }

    /// The display name of the node for `path` (in normal form): the file
    /// name of its path; `None` when there is no such node.
    pub fn node_name(&self, path: &str) -> (r: Option<String>)
        requires
            self.wf(),
        ensures
            r is Some <==> self.view().ids.contains_key(normal_path(path@)),
            r matches Some(n) ==> n@ == file_name_spec(normal_path(path@)),
    {
        let p = normalize_path(path);
        match self.node_map.get(p.as_str()) {
            Some(id) => {
                let id = *id;
                assert(self.view().ids.contains_key(p@));
                assert(self.view().ids[p@] == id);
                assert(self.view().paths[id as int] == p@);
                assert(self.nodes@[id as int].path@ == p@);
                Some(self.nodes[id].name.clone())
            },
            None => None,
        }
    }

    /// Resolves the import `raw` written in the file `importer` against the
    /// paths of the nodes.
    pub fn resolve_import(&self, raw: &str, importer: &str) -> (r: Option<String>)
        requires
            self.wf(),
        ensures
            r matches Some(t) ==> resolve_spec(raw@, importer@, self.view().ids.dom()) == Some(t@),
            r is None ==> resolve_spec(raw@, importer@, self.view().ids.dom()) is None,
    {
        if !is_relative_import(raw) {
            return None;
        }
        let base = import_base_of(raw, importer);
        let ghost known = self.view().ids.dom();
        let mut k: usize = 0;
        while k < CANDIDATE_COUNT
            invariant
                k <= CANDIDATE_COUNT,
                is_relative(raw@),
                known == self.view().ids.dom(),
                base@ == import_base(raw@, importer@),
                first_known(base@, known, 0) == first_known(base@, known, k as int),
            decreases CANDIDATE_COUNT - k,
        {
            let c = candidate_at(&base, k);
            if self.node_map.contains_key(c.as_str()) {
                assert(known.contains(c@));
                assert(first_known(base@, known, k as int) == Some(c@));
                return Some(c);
            }
            k = k + 1;
        }
        None
    }

    fn neighbors(&self, path: &str, out: bool) -> (r: Vec<String>)
        requires
            self.wf(),
        ensures
            views(r@).no_duplicates(),
            forall|q: Seq<char>|
                #![trigger views(r@).contains(q)]
                views(r@).contains(q) <==> (if out {
                    self.view().has_edge(normal_path(path@), q)
                } else {
                    self.view().has_edge(q, normal_path(path@))
                }),
    {
        broadcast use vstd::seq_lib::group_to_multiset_ensures;

        let p = normalize_path(path);
        let mut r: Vec<String> = Vec::new();
        let ghost g = self.view();
        match self.node_map.get(p.as_str()) {
            None => {
                assert(views(r@) =~= Seq::<Seq<char>>::empty());
                r
            },
            Some(id) => {
                let id = *id;
                let idx = arena_neighbors(&self.graph, id, out);
                let ghost m = arena_edges(self.graph);
                proof {
                    assert forall|v: usize| idx@.to_multiset().count(v) <= 1 by {
                        assert(idx@.to_multiset().count(v) == m.count(edge_key(out, id, v)));
                    }
                    lemma_no_dup_from_counts(idx@);
                }
                let mut k: usize = 0;
                while k < idx.len()
                    invariant
                        self.wf(),
                        g == self.view(),
                        m == arena_edges(self.graph),
                        k <= idx.len(),
                        r@.len() == k,
                        g.ids.contains_key(p@) && g.ids[p@] == id,
                        forall|v: usize| #[trigger]
                            idx@.to_multiset().count(v) == m.count(edge_key(out, id, v)),
                        forall|j: int| 0 <= j < k ==> (idx@[j] as int) < g.paths.len(),
                        forall|j: int| 0 <= j < k ==> #[trigger] r@[j]@ == g.paths[idx@[j] as int],
                    decreases idx.len() - k,
                {
                    let j = idx[k];
                    assert(idx@[k as int] == j);
                    assert(idx@.contains(j));
                    proof {
                        idx@.to_multiset_ensures();
                    }
                    assert(idx@.to_multiset().count(j) > 0);
                    assert(m.count(edge_key(out, id, j)) > 0);
                    assert(g.edges.contains(edge_key(out, id, j)));
                    assert(g.paths.len() == self.nodes@.len());
                    let q = self.nodes[j].path.clone();
                    r.push(q);
                    k = k + 1;
                }
                proof {
                    assert forall|a: int, b: int|
                        0 <= a < views(r@).len() && 0 <= b < views(r@).len() && a != b implies views(
                        r@,
                    )[a] != views(r@)[b] by {
                        assert(views(r@)[a] == g.paths[idx@[a] as int]);
                        assert(views(r@)[b] == g.paths[idx@[b] as int]);
                        assert(idx@[a] != idx@[b]);
                    }
                    assert forall|q: Seq<char>|
                        #![trigger views(r@).contains(q)]
                        views(r@).contains(q) <==> (if out {
                            g.has_edge(p@, q)
                        } else {
                            g.has_edge(q, p@)
                        }) by {
                        if views(r@).contains(q) {
                            let a = choose|a: int| 0 <= a < views(r@).len() && views(r@)[a] == q;
                            let j = idx@[a];
                            assert(idx@.contains(j));
                            assert(idx@.to_multiset().count(j) > 0);
                            assert(m.count(edge_key(out, id, j)) > 0);
                            assert(g.edges.contains(edge_key(out, id, j)));
                            assert(g.paths[j as int] == q);
                        }
                        if out && g.has_edge(p@, q) || !out && g.has_edge(q, p@) {
                            let j = g.ids[q];
                            assert(m.count(edge_key(out, id, j)) > 0);
                            assert(idx@.to_multiset().count(j) > 0);
                            assert(idx@.contains(j));
                            let a = choose|a: int| 0 <= a < idx@.len() && idx@[a] == j;
                            assert(views(r@)[a] == q);
                        }
                    }
                }
                r
            },
        }
    }

    /// The paths that the file `path` imports, each once.
    pub fn outgoing(&self, path: &str) -> (r: Vec<String>)
        requires
            self.wf(),
        ensures
            views(r@).no_duplicates(),
            views(r@).to_set() == self.view().outgoing(normal_path(path@)),
    {
        let r = self.neighbors(path, true);
        assert(views(r@).to_set() =~= self.view().outgoing(normal_path(path@)));
        r
    }

    /// The paths of the files that import the file `path`, each once.
    pub fn incoming(&self, path: &str) -> (r: Vec<String>)
        requires
            self.wf(),
        ensures
            views(r@).no_duplicates(),
            views(r@).to_set() == self.view().incoming(normal_path(path@)),
    {
        let r = self.neighbors(path, false);
        assert(views(r@).to_set() =~= self.view().incoming(normal_path(path@)));
        r
    }
}

/// The views of a sequence of string lists.
pub open spec fn nested_views(v: Seq<Vec<String>>) -> Seq<Seq<Seq<char>>> {
    v.map_values(|x: Vec<String>| views(x@))
}

/// The graph with one node for each of `files`, in normal form, and no edges.
pub open spec fn with_nodes(files: Seq<Seq<char>>) -> GraphView
    decreases files.len(),
{
    if files.len() == 0 {
        GraphView::empty()
    } else {
        with_nodes(files.drop_last()).add_node(normal_path(files.last())).0
    }
}

/// `g` with an edge from `file` for each of the raw imports `raws` that
/// resolves among the nodes of the graph.
pub open spec fn with_imports(g: GraphView, file: Seq<char>, raws: Seq<Seq<char>>) -> GraphView
    decreases raws.len(),
{
    if raws.len() == 0 {
        g
    } else {
        let g1 = with_imports(g, file, raws.drop_last());
        match resolve_spec(raws.last(), file, g1.ids.dom()) {
            Some(t) => g1.add_edge(file, t),
            None => g1,
        }
    }
}

/// `g` with the edges of each file of `files` for its raw imports in `imports`.
pub open spec fn with_all_imports(
    g: GraphView,
    files: Seq<Seq<char>>,
    imports: Seq<Seq<Seq<char>>>,
) -> GraphView
    decreases files.len(),
{
    if files.len() == 0 || imports.len() == 0 {
        g
    } else {
        with_imports(
            with_all_imports(g, files.drop_last(), imports.drop_last()),
            normal_path(files.last()),
            imports.last(),
        )
    }
}

/// The graph of `files`, where `imports[i]` are the raw imports of `files[i]`.
pub open spec fn graph_of(files: Seq<Seq<char>>, imports: Seq<Seq<Seq<char>>>) -> GraphView {
    with_all_imports(with_nodes(files), files, imports)
}

/// Builds the graph of `files`, where `imports[i]` are the raw imports found
/// in `files[i]`: every file is a node, and each import that resolves among
/// the files gives an edge.
pub fn build_graph_from_imports(files: &Vec<String>, imports: &Vec<Vec<String>>) -> (r:
    ProjectGraph)
    requires
        files.len() == imports.len(),
    ensures
        r.wf(),
        r.view() == graph_of(views(files@), nested_views(imports@)),
{
    let ghost fs = views(files@);
    let ghost is = nested_views(imports@);
    let mut g = ProjectGraph::new();
    let mut i: usize = 0;
    while i < files.len()
        invariant
            i <= files.len(),
            fs == views(files@),
            g.wf(),
            g.view() == with_nodes(fs.subrange(0, i as int)),
        decreases files.len() - i,
    {
        assert(fs.subrange(0, i + 1).drop_last() =~= fs.subrange(0, i as int));
        assert(fs.subrange(0, i + 1).last() == files[i as int]@);
        g.add_file(files[i].clone());
        i = i + 1;
    }
    assert(fs.subrange(0, files.len() as int) =~= fs);
    let ghost base = g.view();
    assert(base == with_all_imports(base, fs.subrange(0, 0), is.subrange(0, 0)));
    let mut i: usize = 0;
    while i < files.len()
        invariant
            i <= files.len(),
            files.len() == imports.len(),
            fs == views(files@),
            is == nested_views(imports@),
            base == with_nodes(fs),
            g.wf(),
            g.view() == with_all_imports(base, fs.subrange(0, i as int), is.subrange(0, i as int)),
        decreases files.len() - i,
    {
        let file = normalize_path(files[i].as_str());
        let raws = &imports[i];
        let ghost g0 = g.view();
        assert(is[i as int] == views(raws@));
        let mut j: usize = 0;
        while j < raws.len()
            invariant
                j <= raws.len(),
                g.wf(),
                g.view() == with_imports(g0, file@, views(raws@).subrange(0, j as int)),
            decreases raws.len() - j,
        {
            assert(views(raws@).subrange(0, j + 1).drop_last() =~= views(raws@).subrange(
                0,
                j as int,
            ));
            assert(views(raws@).subrange(0, j + 1).last() == raws[j as int]@);
            match g.resolve_import(raws[j].as_str(), file.as_str()) {
                Some(t) => g.add_edge_key(&file, &t),
                None => {},
            }
            j = j + 1;
        }
        assert(views(raws@).subrange(0, raws.len() as int) =~= views(raws@));
        assert(fs.subrange(0, i + 1).drop_last() =~= fs.subrange(0, i as int));
        assert(is.subrange(0, i + 1).drop_last() =~= is.subrange(0, i as int));
        assert(fs.subrange(0, i + 1).last() == files[i as int]@);
        assert(is.subrange(0, i + 1).last() == is[i as int]);
        i = i + 1;
    }
    assert(fs.subrange(0, files.len() as int) =~= fs);
    assert(is.subrange(0, files.len() as int) =~= is);
    g
}

/// The raw imports of each of `files`, where `contents[i]` is the content of
/// `files[i]`.
pub open spec fn scanned_imports_all(files: Seq<Seq<char>>, contents: Seq<Seq<char>>) -> Seq<
    Seq<Seq<char>>,
> {
    Seq::new(files.len(), |i: int| scanned_imports(files[i], contents[i]))
}

/// Builds the graph of `files`, where `contents[i]` is the content of
/// `files[i]` (empty when it could not be read): the files whose extension is
/// scanned are searched for imports, and each that resolves gives an edge.
pub fn build_graph(files: &Vec<String>, contents: &Vec<String>) -> (r: ProjectGraph)
    requires
        files.len() == contents.len(),
    ensures
        r.wf(),
        r.view() == graph_of(views(files@), scanned_imports_all(views(files@), views(contents@))),
{
    let mut imports: Vec<Vec<String>> = Vec::new();
    let mut i: usize = 0;
    while i < files.len()
        invariant
            i <= files.len(),
            files.len() == contents.len(),
            nested_views(imports@) =~= scanned_imports_all(views(files@), views(contents@)).subrange(
                0,
                i as int,
            ),
        decreases files.len() - i,
    {
        let found = imports_of_file(files[i].as_str(), contents[i].as_str());
        let ghost before = imports@;
        imports.push(found);
        assert(nested_views(imports@) =~= nested_views(before).push(views(found@)));
        i = i + 1;
    }
    assert(scanned_imports_all(views(files@), views(contents@)).subrange(0, files.len() as int)
        =~= scanned_imports_all(views(files@), views(contents@)));
    build_graph_from_imports(files, &imports)
}

/// Inserting a node keeps the graph well formed, and only adds `p` to the
/// known paths.
pub proof fn lemma_add_node_wf(g: GraphView, p: Seq<char>)
    requires
        g.wf(),
        g.paths.len() < usize::MAX,
    ensures
        g.add_node(p).0.wf(),
        g.add_node(p).0.ids.dom() == g.ids.dom().insert(p),
        g.add_node(p).0.ids.contains_key(p),
        g.add_node(p).0.ids[p] == g.add_node(p).1,
        g.add_node(p).0.edges == g.edges,
        g.add_node(p).0.paths.len() <= g.paths.len() + 1,
        forall|q: Seq<char>| #[trigger]
            g.ids.contains_key(q) ==> g.add_node(p).0.ids[q] == g.ids[q],
{
    let g1 = g.add_node(p).0;
    assert(g1.ids.dom() =~= g.ids.dom().insert(p));
    if !g.ids.contains_key(p) {
        assert forall|i: int|
            #![trigger g1.paths[i]]
            0 <= i < g1.paths.len() implies g1.ids.contains_key(g1.paths[i]) && g1.ids[g1.paths[i]]
            == i by {
            if i < g.paths.len() {
                assert(g1.paths[i] == g.paths[i]);
            }
        }
    }
}

/// Inserting an edge keeps the graph well formed; between known paths it
/// adds that one edge and changes nothing else.
pub proof fn lemma_add_edge_wf(g: GraphView, p: Seq<char>, q: Seq<char>)
    requires
        g.wf(),
        g.paths.len() + 1 < usize::MAX,
    ensures
        g.add_edge(p, q).wf(),
        g.add_edge(p, q).ids.dom() == g.ids.dom().insert(p).insert(q),
        g.add_edge(p, q).has_edge(p, q),
        g.add_edge(p, q).paths.len() <= g.paths.len() + 2,
        g.ids.contains_key(p) && g.ids.contains_key(q) ==> g.add_edge(p, q) == (GraphView {
            edges: g.edges.insert((g.ids[p], g.ids[q])),
            ..g
        }),
{
    let (g1, a) = g.add_node(p);
    lemma_add_node_wf(g, p);
    let (g2, b) = g1.add_node(q);
    lemma_add_node_wf(g1, q);
    assert(g2.ids[p] == a);
}

/// Inserting the same path twice gives the same identity both times, and the
/// second insertion changes nothing.
pub proof fn lemma_add_node_idempotent(g: GraphView, p: Seq<char>)
    ensures
        g.add_node(p).0.add_node(p) == g.add_node(p),
        g.add_node(p).0.ids.contains_key(p),
        g.add_node(p).0.ids[p] == g.add_node(p).1,
{
}

/// No insertion of a node changes the imports of any file or the files that
/// import it (identities being `usize`, the graph has fewer than `usize::MAX`
/// nodes).
pub proof fn lemma_add_node_keeps_neighbors(g: GraphView, p: Seq<char>)
    requires
        g.wf(),
        g.paths.len() < usize::MAX,
    ensures
        forall|q: Seq<char>|
            #![trigger g.add_node(p).0.outgoing(q)]
            g.add_node(p).0.outgoing(q) == g.outgoing(q),
        forall|q: Seq<char>|
            #![trigger g.add_node(p).0.incoming(q)]
            g.add_node(p).0.incoming(q) == g.incoming(q),
{
    let g1 = g.add_node(p).0;
    lemma_add_node_wf(g, p);
    assert forall|q: Seq<char>| #![trigger g1.outgoing(q)] g1.outgoing(q) == g.outgoing(q) by {
        assert forall|r: Seq<char>| g1.has_edge(q, r) == g.has_edge(q, r) by {
            if g1.has_edge(q, r) {
                assert(g.edges.contains((g1.ids[q], g1.ids[r])));
                assert(g.paths[g1.ids[q] as int] == q);
                assert(g.paths[g1.ids[r] as int] == r);
            }
        }
        assert(g1.outgoing(q) =~= g.outgoing(q));
    }
    assert forall|q: Seq<char>| #![trigger g1.incoming(q)] g1.incoming(q) == g.incoming(q) by {
        assert forall|r: Seq<char>| g1.has_edge(r, q) == g.has_edge(r, q) by {
            if g1.has_edge(r, q) {
                assert(g.edges.contains((g1.ids[r], g1.ids[q])));
                assert(g.paths[g1.ids[q] as int] == q);
                assert(g.paths[g1.ids[r] as int] == r);
            }
        }
        assert(g1.incoming(q) =~= g.incoming(q));
    }
}

/// Inserting `p -> q` gives a graph that holds it.
pub proof fn lemma_add_edge_holds(g: GraphView, p: Seq<char>, q: Seq<char>)
    ensures
        g.add_edge(p, q).has_edge(p, q),
{
}

/// Once `p -> q` is in the graph, inserting it again changes nothing.
pub proof fn lemma_add_edge_again(g: GraphView, p: Seq<char>, q: Seq<char>)
    requires
        g.has_edge(p, q),
    ensures
        g.add_edge(p, q) == g,
{
    assert(g.edges.insert((g.ids[p], g.ids[q])) =~= g.edges);
    assert(g.add_edge(p, q) =~= g);
}

/// The edge `p -> q` inserted `n` times.
pub open spec fn add_edge_times(g: GraphView, p: Seq<char>, q: Seq<char>, n: nat) -> GraphView
    decreases n,
{
    if n == 0 {
        g
    } else {
        add_edge_times(g, p, q, (n - 1) as nat).add_edge(p, q)
    }
}

/// Inserting the same edge `n >= 1` times gives the graph of one insertion,
/// which holds that edge once: `q` is among the imports of `p`.
pub proof fn lemma_add_edge_dedup(g: GraphView, p: Seq<char>, q: Seq<char>, n: nat)
    requires
        n >= 1,
    ensures
        add_edge_times(g, p, q, n) == g.add_edge(p, q),
        g.add_edge(p, q).has_edge(p, q),
        g.add_edge(p, q).outgoing(p).contains(q),
    decreases n,
{
    let g1 = g.add_edge(p, q);
    lemma_add_edge_holds(g, p, q);
    lemma_add_edge_again(g1, p, q);
    if n > 1 {
        lemma_add_edge_dedup(g, p, q, (n - 1) as nat);
        assert(add_edge_times(g, p, q, n) == add_edge_times(g, p, q, (n - 1) as nat).add_edge(p, q));
    } else {
        assert(add_edge_times(g, p, q, 0) == g);
        assert(add_edge_times(g, p, q, 1) == add_edge_times(g, p, q, 0).add_edge(p, q));
    }
}

/// `q` is among the imports of `p` exactly when `p` is among the files that
/// import `q`.
pub proof fn lemma_symmetry(g: GraphView, p: Seq<char>, q: Seq<char>)
    ensures
        g.outgoing(p).contains(q) <==> g.incoming(q).contains(p),
{
}

/// No edge of `g` has `p` at either end.
pub open spec fn untouched(g: GraphView, p: Seq<char>) -> bool {
    forall|q: Seq<char>|
        #![trigger g.has_edge(p, q)]
        #![trigger g.has_edge(q, p)]
        !g.has_edge(p, q) && !g.has_edge(q, p)
}

proof fn lemma_with_nodes(files: Seq<Seq<char>>)
    requires
        files.len() < usize::MAX,
    ensures
        with_nodes(files).wf(),
        with_nodes(files).edges == Set::<(usize, usize)>::empty(),
        with_nodes(files).paths.len() <= files.len(),
        forall|i: int|
            0 <= i < files.len() ==> with_nodes(files).ids.contains_key(
                #[trigger] normal_path(files[i]),
            ),
    decreases files.len(),
{
    if files.len() > 0 {
        let prev = files.drop_last();
        lemma_with_nodes(prev);
        lemma_add_node_wf(with_nodes(prev), normal_path(files.last()));
        assert forall|i: int|
            0 <= i < files.len() implies with_nodes(files).ids.contains_key(
            #[trigger] normal_path(files[i]),
        ) by {
            if i < prev.len() {
                assert(files[i] == prev[i]);
            }
        }
    } else {
        assert(GraphView::empty().wf());
    }
}

proof fn lemma_with_imports_untouched(
    g: GraphView,
    file: Seq<char>,
    raws: Seq<Seq<char>>,
    p: Seq<char>,
)
    requires
        g.wf(),
        g.paths.len() + 1 < usize::MAX,
        g.ids.contains_key(file),
        untouched(g, p),
        raws.len() > 0 ==> file != p,
        forall|j: int|
            0 <= j < raws.len() ==> resolve_spec(#[trigger] raws[j], file, g.ids.dom()) != Some(p),
    ensures
        with_imports(g, file, raws).wf(),
        with_imports(g, file, raws).ids == g.ids,
        with_imports(g, file, raws).paths == g.paths,
        untouched(with_imports(g, file, raws), p),
    decreases raws.len(),
{
    if raws.len() > 0 {
        let prev = raws.drop_last();
        assert forall|j: int|
            0 <= j < prev.len() implies resolve_spec(#[trigger] prev[j], file, g.ids.dom()) != Some(
            p,
        ) by {
            assert(prev[j] == raws[j]);
        }
        lemma_with_imports_untouched(g, file, prev, p);
        let g1 = with_imports(g, file, prev);
        let last = raws.last();
        assert(resolve_spec(raws[raws.len() - 1], file, g.ids.dom()) != Some(p));
        lemma_resolved_is_known(last, file, g1.ids.dom());
        match resolve_spec(last, file, g1.ids.dom()) {
            Some(t) => {
                lemma_add_edge_wf(g1, file, t);
                let w = g1.add_edge(file, t);
                assert forall|q: Seq<char>| !w.has_edge(p, q) && !w.has_edge(q, p) by {
                    if w.has_edge(p, q) && !g1.has_edge(p, q) {
                        assert(g1.paths[g1.ids[p] as int] == p);
                        assert(g1.paths[g1.ids[file] as int] == file);
                    }
                    if w.has_edge(q, p) && !g1.has_edge(q, p) {
                        assert(g1.paths[g1.ids[p] as int] == p);
                        assert(g1.paths[g1.ids[t] as int] == t);
                    }
                }
            },
            None => {},
        }
    }
}

proof fn lemma_with_all_imports_untouched(
    base: GraphView,
    files: Seq<Seq<char>>,
    imports: Seq<Seq<Seq<char>>>,
    p: Seq<char>,
)
    requires
        base.wf(),
        base.paths.len() + 1 < usize::MAX,
        files.len() == imports.len(),
        forall|i: int| 0 <= i < files.len() ==> base.ids.contains_key(#[trigger] normal_path(files[i])),
        untouched(base, p),
        forall|i: int|
            0 <= i < files.len() && normal_path(files[i]) == p ==> (#[trigger] imports[i]).len() == 0,
        forall|i: int, j: int|
            0 <= i < files.len() && 0 <= j < imports[i].len() ==> resolve_spec(
                #[trigger] imports[i][j],
                normal_path(files[i]),
                base.ids.dom(),
            ) != Some(p),
    ensures
        with_all_imports(base, files, imports).wf(),
        with_all_imports(base, files, imports).ids == base.ids,
        with_all_imports(base, files, imports).paths == base.paths,
        untouched(with_all_imports(base, files, imports), p),
    decreases files.len(),
{
    if files.len() > 0 {
        let fs = files.drop_last();
        let is = imports.drop_last();
        assert forall|i: int| 0 <= i < fs.len() implies base.ids.contains_key(
            #[trigger] normal_path(fs[i]),
        ) by {
            assert(fs[i] == files[i]);
        }
        assert forall|i: int|
            0 <= i < fs.len() && normal_path(fs[i]) == p implies (#[trigger] is[i]).len() == 0 by {
            assert(fs[i] == files[i] && is[i] == imports[i]);
        }
        assert forall|i: int, j: int|
            0 <= i < fs.len() && 0 <= j < is[i].len() implies resolve_spec(
            #[trigger] is[i][j],
            normal_path(fs[i]),
            base.ids.dom(),
        ) != Some(p) by {
            assert(fs[i] == files[i] && is[i] == imports[i]);
        }
        lemma_with_all_imports_untouched(base, fs, is, p);
        let n = files.len() - 1;
        let file = normal_path(files.last());
        assert(base.ids.contains_key(normal_path(files[n])));
        assert forall|j: int|
            0 <= j < imports.last().len() implies resolve_spec(
            #[trigger] imports.last()[j],
            file,
            base.ids.dom(),
        ) != Some(p) by {
            assert(imports.last()[j] == imports[n][j]);
        }
        if imports.last().len() > 0 {
            assert(imports[n].len() > 0);
        }
        lemma_with_imports_untouched(
            with_all_imports(base, fs, is),
            file,
            imports.last(),
            p,
        );
    }
}

/// A file with no imports of its own, which no import of any other file
/// resolves to, has no imports and is imported by no file in the built graph.
pub proof fn lemma_isolated_file(
    files: Seq<Seq<char>>,
    imports: Seq<Seq<Seq<char>>>,
    p: Seq<char>,
)
    requires
        files.len() == imports.len(),
        files.len() + 1 < usize::MAX,
        forall|i: int|
            0 <= i < files.len() && normal_path(files[i]) == p ==> (#[trigger] imports[i]).len() == 0,
        forall|i: int, j: int|
            0 <= i < files.len() && 0 <= j < imports[i].len() ==> resolve_spec(
                #[trigger] imports[i][j],
                normal_path(files[i]),
                with_nodes(files).ids.dom(),
            ) != Some(p),
    ensures
        graph_of(files, imports).outgoing(p) == Set::<Seq<char>>::empty(),
        graph_of(files, imports).incoming(p) == Set::<Seq<char>>::empty(),
{
    lemma_with_nodes(files);
    let base = with_nodes(files);
    lemma_with_all_imports_untouched(base, files, imports, p);
    let g = graph_of(files, imports);
    assert(g.outgoing(p) =~= Set::<Seq<char>>::empty());
    assert(g.incoming(p) =~= Set::<Seq<char>>::empty());
}

/// The normal forms of the paths `files`.
pub open spec fn known_files(files: Seq<Seq<char>>) -> Set<Seq<char>> {
    Set::new(|q: Seq<char>| exists|i: int| 0 <= i < files.len() && normal_path(files[i]) == q)
}

/// Some raw import of a file whose normal form is `p` resolves to `q` among `known`.
pub open spec fn import_edge(
    files: Seq<Seq<char>>,
    imports: Seq<Seq<Seq<char>>>,
    known: Set<Seq<char>>,
    p: Seq<char>,
    q: Seq<char>,
) -> bool {
    exists|i: int, j: int|
        0 <= i < files.len() && 0 <= j < imports[i].len() && normal_path(files[i]) == p
            && #[trigger] resolve_spec(imports[i][j], p, known) == Some(q)
}

proof fn lemma_with_nodes_known(files: Seq<Seq<char>>)
    requires
        files.len() < usize::MAX,
    ensures
        with_nodes(files).ids.dom() == known_files(files),
    decreases files.len(),
{
    if files.len() > 0 {
        let prev = files.drop_last();
        lemma_with_nodes_known(prev);
        lemma_with_nodes(prev);
        lemma_add_node_wf(with_nodes(prev), normal_path(files.last()));
        assert forall|q: Seq<char>| known_files(files).contains(q) <==> known_files(prev).insert(
            normal_path(files.last()),
        ).contains(q) by {
            if known_files(files).contains(q) {
                let i = choose|i: int| 0 <= i < files.len() && normal_path(files[i]) == q;
                if i < prev.len() {
                    assert(prev[i] == files[i]);
                }
            }
            if known_files(prev).contains(q) {
                let i = choose|i: int| 0 <= i < prev.len() && normal_path(prev[i]) == q;
                assert(prev[i] == files[i]);
            }
            if q == normal_path(files.last()) {
                assert(normal_path(files[files.len() - 1]) == q);
            }
        }
        assert(known_files(files) =~= known_files(prev).insert(normal_path(files.last())));
    } else {
        assert(known_files(files) =~= Set::<Seq<char>>::empty());
        assert(with_nodes(files).ids.dom() =~= Set::<Seq<char>>::empty());
    }
}

proof fn lemma_with_imports_edges(g: GraphView, file: Seq<char>, raws: Seq<Seq<char>>)
    requires
        g.wf(),
        g.paths.len() + 1 < usize::MAX,
        g.ids.contains_key(file),
    ensures
        with_imports(g, file, raws).wf(),
        with_imports(g, file, raws).ids == g.ids,
        with_imports(g, file, raws).paths == g.paths,
        forall|a: Seq<char>, b: Seq<char>|
            #[trigger] with_imports(g, file, raws).has_edge(a, b) <==> g.has_edge(a, b) || (a == file
                && exists|j: int|
                0 <= j < raws.len() && #[trigger] resolve_spec(raws[j], file, g.ids.dom()) == Some(
                    b,
                )),
    decreases raws.len(),
{
    if raws.len() > 0 {
        let prev = raws.drop_last();
        lemma_with_imports_edges(g, file, prev);
        let g1 = with_imports(g, file, prev);
        let w = with_imports(g, file, raws);
        let last = raws.last();
        lemma_resolved_is_known(last, file, g1.ids.dom());
        match resolve_spec(last, file, g1.ids.dom()) {
            Some(t) => {
                lemma_add_edge_wf(g1, file, t);
            },
            None => {},
        }
        assert forall|a: Seq<char>, b: Seq<char>|
            #[trigger] w.has_edge(a, b) <==> g.has_edge(a, b) || (a == file && exists|j: int|
                0 <= j < raws.len() && #[trigger] resolve_spec(raws[j], file, g.ids.dom())
                    == Some(b)) by {
            let in_prev = exists|j: int|
                0 <= j < prev.len() && #[trigger] resolve_spec(prev[j], file, g.ids.dom()) == Some(
                    b,
                );
            let in_raws = exists|j: int|
                0 <= j < raws.len() && #[trigger] resolve_spec(raws[j], file, g.ids.dom()) == Some(
                    b,
                );
            if in_prev {
                let j = choose|j: int|
                    0 <= j < prev.len() && #[trigger] resolve_spec(prev[j], file, g.ids.dom())
                        == Some(b);
                assert(raws[j] == prev[j]);
            }
            if in_raws {
                let j = choose|j: int|
                    0 <= j < raws.len() && #[trigger] resolve_spec(raws[j], file, g.ids.dom())
                        == Some(b);
                if j < prev.len() {
                    assert(raws[j] == prev[j]);
                } else {
                    assert(raws[j] == last);
                }
            }
            let r = resolve_spec(last, file, g.ids.dom());
            assert(g1.ids.dom() == g.ids.dom());
            assert(resolve_spec(raws[raws.len() - 1], file, g.ids.dom()) == r);
            assert(in_raws <==> in_prev || r == Some(b));
            assert(g1.has_edge(a, b) <==> g.has_edge(a, b) || (a == file && in_prev));
            match r {
                Some(t) => {
                    assert(w == g1.add_edge(file, t));
                    if w.has_edge(a, b) && !g1.has_edge(a, b) {
                        assert(g1.paths[g1.ids[a] as int] == a);
                        assert(g1.paths[g1.ids[file] as int] == file);
                        assert(g1.paths[g1.ids[b] as int] == b);
                        assert(g1.paths[g1.ids[t] as int] == t);
                    }
                    if g1.has_edge(a, b) {
                        assert(w.edges.contains((g1.ids[a], g1.ids[b])));
                    }
                    assert(w.has_edge(a, b) <==> g1.has_edge(a, b) || (a == file && b == t));
                },
                None => {
                    assert(w == g1);
                },
            }
        }
    }
}

proof fn lemma_with_all_imports_edges(
    base: GraphView,
    files: Seq<Seq<char>>,
    imports: Seq<Seq<Seq<char>>>,
)
    requires
        base.wf(),
        base.paths.len() + 1 < usize::MAX,
        files.len() == imports.len(),
        forall|i: int| 0 <= i < files.len() ==> base.ids.contains_key(#[trigger] normal_path(files[i])),
    ensures
        with_all_imports(base, files, imports).wf(),
        with_all_imports(base, files, imports).ids == base.ids,
        with_all_imports(base, files, imports).paths == base.paths,
        forall|a: Seq<char>, b: Seq<char>|
            #[trigger] with_all_imports(base, files, imports).has_edge(a, b) <==> base.has_edge(a, b)
                || import_edge(files, imports, base.ids.dom(), a, b),
    decreases files.len(),
{
    if files.len() > 0 {
        let fs = files.drop_last();
        let is = imports.drop_last();
        let n = files.len() - 1;
        assert forall|i: int| 0 <= i < fs.len() implies base.ids.contains_key(
            #[trigger] normal_path(fs[i]),
        ) by {
            assert(fs[i] == files[i]);
        }
        lemma_with_all_imports_edges(base, fs, is);
        let g1 = with_all_imports(base, fs, is);
        let file = normal_path(files.last());
        assert(base.ids.contains_key(normal_path(files[n])));
        lemma_with_imports_edges(g1, file, imports.last());
        let w = with_all_imports(base, files, imports);
        let k = base.ids.dom();
        assert forall|a: Seq<char>, b: Seq<char>|
            #[trigger] w.has_edge(a, b) <==> base.has_edge(a, b) || import_edge(
                files,
                imports,
                k,
                a,
                b,
            ) by {
            if import_edge(fs, is, k, a, b) {
                let (i, j) = choose|i: int, j: int|
                    0 <= i < fs.len() && 0 <= j < is[i].len() && normal_path(fs[i]) == a
                        && #[trigger] resolve_spec(is[i][j], a, k) == Some(b);
                assert(fs[i] == files[i] && is[i] == imports[i]);
                assert(resolve_spec(imports[i][j], a, k) == Some(b));
            }
            if a == file && exists|j: int|
                0 <= j < imports.last().len() && #[trigger] resolve_spec(
                    imports.last()[j],
                    file,
                    k,
                ) == Some(b) {
                let j = choose|j: int|
                    0 <= j < imports.last().len() && #[trigger] resolve_spec(
                        imports.last()[j],
                        file,
                        k,
                    ) == Some(b);
                assert(resolve_spec(imports[n][j], a, k) == Some(b));
                assert(normal_path(files[n]) == a);
            }
            if import_edge(files, imports, k, a, b) {
                let (i, j) = choose|i: int, j: int|
                    0 <= i < files.len() && 0 <= j < imports[i].len() && normal_path(files[i]) == a
                        && #[trigger] resolve_spec(imports[i][j], a, k) == Some(b);
                if i < n {
                    assert(fs[i] == files[i] && is[i] == imports[i]);
                    assert(resolve_spec(is[i][j], a, k) == Some(b));
                    assert(import_edge(fs, is, k, a, b));
                } else {
                    assert(resolve_spec(imports.last()[j], file, k) == Some(b));
                }
            }
        }
    }
}

/// The edges of the graph built from `files` and their raw imports: its nodes
/// are the normal forms of `files`, each once (so listing a file twice changes
/// nothing), and `p -> q` is an edge exactly when some raw import of a file
/// with normal form `p` resolves to `q` among them. Every edge therefore comes
/// from a relative import: a non-relative one never gives an edge.
pub proof fn lemma_graph_of_edges(files: Seq<Seq<char>>, imports: Seq<Seq<Seq<char>>>)
    requires
        files.len() == imports.len(),
        files.len() + 1 < usize::MAX,
    ensures
        graph_of(files, imports).wf(),
        graph_of(files, imports).ids.dom() == known_files(files),
        forall|p: Seq<char>, q: Seq<char>|
            #[trigger] graph_of(files, imports).has_edge(p, q) <==> import_edge(
                files,
                imports,
                known_files(files),
                p,
                q,
            ),
        forall|p: Seq<char>, q: Seq<char>|
            #[trigger] graph_of(files, imports).has_edge(p, q) ==> exists|i: int, j: int|
                0 <= i < files.len() && 0 <= j < imports[i].len() && normal_path(files[i]) == p
                    && #[trigger] is_relative(imports[i][j]),
{
    lemma_with_nodes(files);
    lemma_with_nodes_known(files);
    let base = with_nodes(files);
    lemma_with_all_imports_edges(base, files, imports);
    let g = graph_of(files, imports);
    assert forall|p: Seq<char>, q: Seq<char>| #[trigger] g.has_edge(p, q) implies exists|i: int, j: int|
        0 <= i < files.len() && 0 <= j < imports[i].len() && normal_path(files[i]) == p
            && #[trigger] is_relative(imports[i][j]) by {
        assert(!base.has_edge(p, q));
        let (i, j) = choose|i: int, j: int|
            0 <= i < files.len() && 0 <= j < imports[i].len() && normal_path(files[i]) == p
                && #[trigger] resolve_spec(imports[i][j], p, known_files(files)) == Some(q);
        assert(is_relative(imports[i][j]));
    }
}

} // verus!
