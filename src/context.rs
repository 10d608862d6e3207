//! The project-context snapshot: for every file its path, extension, the
//! files it imports and the files that import it, plus the manifest if any.
use crate::crawler::{opt_view, FileInfo};
use crate::graph::{
    build_graph, graph_of, known_files, lemma_graph_of_edges, lemma_isolated_file, scanned_imports_all,
    with_nodes, GraphView, ProjectGraph,
};
use crate::imports::scanned_imports;
use crate::resolve::resolve_spec;
use crate::paths::{normal_path, views};
use std::collections::HashMap;
use vstd::prelude::*;

verus! {

/// The project manifest, carried through uninterpreted.
pub struct PackageJson {
    pub name: Option<String>,
    pub version: Option<String>,
    pub dependencies: Option<HashMap<String, String>>,
    pub dev_dependencies: Option<HashMap<String, String>>,
    pub scripts: Option<HashMap<String, String>>,
}

/// One file of the snapshot.
pub struct FileContext {
    pub path: String,
    pub extension: Option<String>,
    pub imports: Vec<String>,
    pub imported_by: Vec<String>,
}

/// The snapshot of a project.
pub struct ProjectContext {
    pub files: Vec<FileContext>,
    pub package_json: Option<PackageJson>,
}

/// The paths of the file records.
pub open spec fn info_paths(files: Seq<FileInfo>) -> Seq<Seq<char>> {
    files.map_values(|f: FileInfo| f.path@)
}

/// The graph of the files `files` with contents `contents`.
pub open spec fn context_graph(files: Seq<FileInfo>, contents: Seq<String>) -> GraphView {
    graph_of(info_paths(files), scanned_imports_all(info_paths(files), views(contents)))
}

/// `c` is the snapshot entry of `f` in graph `g`.
pub open spec fn is_context_of(c: FileContext, f: FileInfo, g: GraphView) -> bool {
    &&& c.path@ == f.path@
    &&& opt_view(c.extension) == opt_view(f.extension)
    &&& views(c.imports@).no_duplicates()
    &&& views(c.imports@).to_set() == g.outgoing(normal_path(f.path@))
    &&& views(c.imported_by@).no_duplicates()
    &&& views(c.imported_by@).to_set() == g.incoming(normal_path(f.path@))
}

fn clone_opt(o: &Option<String>) -> (r: Option<String>)
    ensures
        opt_view(r) == opt_view(*o),
{
    match o {
        Some(s) => Some(s.clone()),
        None => None,
    }
}

/// Assembles the snapshot of the enumerated `files`, where `contents[i]` is
/// the content of `files[i]` (empty when unread), with the manifest
/// `package_json` carried through.
pub fn assemble_context(
    files: &Vec<FileInfo>,
    contents: &Vec<String>,
    package_json: Option<PackageJson>,
) -> (r: ProjectContext)
    requires
        files.len() == contents.len(),
    ensures
        r.package_json == package_json,
        r.files@.len() == files@.len(),
        forall|i: int|
            0 <= i < files@.len() ==> is_context_of(
                #[trigger] r.files@[i],
                files@[i],
                context_graph(files@, contents@),
            ),
{
    let mut paths: Vec<String> = Vec::new();
    let mut i: usize = 0;
    while i < files.len()
        invariant
            i <= files.len(),
            views(paths@) =~= info_paths(files@).subrange(0, i as int),
        decreases files.len() - i,
    {
        let ghost before = paths@;
        paths.push(files[i].path.clone());
        assert(views(paths@) =~= views(before).push(files@[i as int].path@));
        i = i + 1;
    }
    assert(info_paths(files@).subrange(0, files.len() as int) =~= info_paths(files@));
    let graph: ProjectGraph = build_graph(&paths, contents);
    let ghost g = context_graph(files@, contents@);
    assert(graph.view() == g);
    let mut out: Vec<FileContext> = Vec::new();
    let mut i: usize = 0;
    while i < files.len()
        invariant
            i <= files.len(),
            graph.wf(),
            graph.view() == g,
            out@.len() == i,
            forall|k: int| 0 <= k < i ==> is_context_of(#[trigger] out@[k], files@[k], g),
        decreases files.len() - i,
    {
        let f = &files[i];
        let imports = graph.outgoing(f.path.as_str());
        let imported_by = graph.incoming(f.path.as_str());
        out.push(
            FileContext {
                path: f.path.clone(),
                extension: clone_opt(&f.extension),
                imports,
                imported_by,
            },
        );
        i = i + 1;
    }
    ProjectContext { files: out, package_json }
}

/// Where the enumerated paths are in normal form, `fj` is among the imports
/// of `fi` exactly when `fi` is among the files that import `fj`.
pub proof fn lemma_context_symmetry(
    g: GraphView,
    ci: FileContext,
    fi: FileInfo,
    cj: FileContext,
    fj: FileInfo,
)
    requires
        is_context_of(ci, fi, g),
        is_context_of(cj, fj, g),
        normal_path(fi.path@) == fi.path@,
        normal_path(fj.path@) == fj.path@,
    ensures
        views(ci.imports@).contains(fj.path@) <==> views(cj.imported_by@).contains(fi.path@),
{
    assert(views(ci.imports@).to_set().contains(fj.path@) <==> views(ci.imports@).contains(
        fj.path@,
    ));
    assert(views(cj.imported_by@).to_set().contains(fi.path@) <==> views(
        cj.imported_by@,
    ).contains(fi.path@));
}

/// Every path listed in a snapshot entry is the normal form of an enumerated file.
pub proof fn lemma_context_lists_known(
    files: Seq<FileInfo>,
    contents: Seq<String>,
    c: FileContext,
    f: FileInfo,
)
    requires
        files.len() == contents.len(),
        files.len() + 1 < usize::MAX,
        is_context_of(c, f, context_graph(files, contents)),
    ensures
        forall|q: Seq<char>|
            #![trigger views(c.imports@).contains(q)]
            views(c.imports@).contains(q) ==> known_files(info_paths(files)).contains(q),
        forall|q: Seq<char>|
            #![trigger views(c.imported_by@).contains(q)]
            views(c.imported_by@).contains(q) ==> known_files(info_paths(files)).contains(q),
{
    let ps = info_paths(files);
    let is = scanned_imports_all(ps, views(contents));
    lemma_graph_of_edges(ps, is);
    let g = context_graph(files, contents);
    assert forall|q: Seq<char>|
        #![trigger views(c.imports@).contains(q)]
        views(c.imports@).contains(q) implies known_files(ps).contains(q) by {
        assert(views(c.imports@).to_set().contains(q));
        assert(g.has_edge(normal_path(f.path@), q));
    }
    assert forall|q: Seq<char>|
        #![trigger views(c.imported_by@).contains(q)]
        views(c.imported_by@).contains(q) implies known_files(ps).contains(q) by {
        assert(views(c.imported_by@).to_set().contains(q));
        assert(g.has_edge(q, normal_path(f.path@)));
    }
}

/// A file whose own imports are none (no import statement, or an extension
/// that is not scanned), and to which no import of any file resolves, has
/// empty import and imported-by lists in the snapshot.
pub proof fn lemma_isolated_entry(
    files: Seq<FileInfo>,
    contents: Seq<String>,
    c: FileContext,
    f: FileInfo,
)
    requires
        files.len() == contents.len(),
        files.len() + 1 < usize::MAX,
        is_context_of(c, f, context_graph(files, contents)),
        forall|i: int|
            0 <= i < files.len() && normal_path(files[i].path@) == normal_path(f.path@) ==> (
            #[trigger] scanned_imports(files[i].path@, contents[i]@)).len() == 0,
        forall|i: int, j: int|
            0 <= i < files.len() && 0 <= j < scanned_imports(files[i].path@, contents[i]@).len()
                ==> resolve_spec(
                #[trigger] scanned_imports(files[i].path@, contents[i]@)[j],
                normal_path(files[i].path@),
                with_nodes(info_paths(files)).ids.dom(),
            ) != Some(normal_path(f.path@)),
    ensures
        c.imports@.len() == 0,
        c.imported_by@.len() == 0,
{
    let ps = info_paths(files);
    let is = scanned_imports_all(ps, views(contents));
    let p = normal_path(f.path@);
    assert forall|i: int| 0 <= i < ps.len() && normal_path(ps[i]) == p implies (
    #[trigger] is[i]).len() == 0 by {
        assert(ps[i] == files[i].path@);
        assert(views(contents)[i] == contents[i]@);
        assert(is[i] == scanned_imports(files[i].path@, contents[i]@));
    }
    assert forall|i: int, j: int| 0 <= i < ps.len() && 0 <= j < is[i].len() implies resolve_spec(
        #[trigger] is[i][j],
        normal_path(ps[i]),
        with_nodes(ps).ids.dom(),
    ) != Some(p) by {
        assert(ps[i] == files[i].path@);
        assert(views(contents)[i] == contents[i]@);
        assert(is[i] == scanned_imports(files[i].path@, contents[i]@));
    }
    lemma_isolated_file(ps, is, p);
    if c.imports@.len() > 0 {
        assert(views(c.imports@).to_set().contains(views(c.imports@)[0]));
    }
    if c.imported_by@.len() > 0 {
        assert(views(c.imported_by@).to_set().contains(views(c.imported_by@)[0]));
    }
}

} // verus!
