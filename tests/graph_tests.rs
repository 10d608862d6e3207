use project_graph::context::{assemble_context, PackageJson};
use project_graph::crawler::{file_info_for, project_files, FileInfo};
use project_graph::graph::{build_graph, build_graph_from_imports, ProjectGraph};
use project_graph::imports::{extract_imports, imports_of_file, is_scanned_path};
use project_graph::paths::{extension_of, file_name_of, normalize_path, split_segments};
use project_graph::resolve::{candidate_at, import_base_of, is_relative_import};

fn strings(v: &[&str]) -> Vec<String> {
    v.iter().map(|s| s.to_string()).collect()
}

fn sorted(mut v: Vec<String>) -> Vec<String> {
    v.sort();
    v
}

#[test]
fn relative_import_gives_edge() {
    let g = build_graph(&strings(&["a.ts", "b.ts"]), &strings(&["import './b'", ""]));
    assert_eq!(g.outgoing("a.ts"), strings(&["b.ts"]));
    assert_eq!(g.incoming("b.ts"), strings(&["a.ts"]));
    assert!(g.outgoing("b.ts").is_empty());
    assert!(g.incoming("a.ts").is_empty());
}

#[test]
fn missing_target_gives_no_edge() {
    let g = build_graph(&strings(&["a.ts"]), &strings(&["import './missing'"]));
    assert!(g.outgoing("a.ts").is_empty());
    assert!(g.incoming("a.ts").is_empty());
}

#[test]
fn bare_specifier_gives_no_edge() {
    let g = build_graph(
        &strings(&["a.ts", "lodash", "lodash.ts"]),
        &strings(&["import _ from 'lodash'", "", ""]),
    );
    assert!(g.outgoing("a.ts").is_empty());
    assert!(g.incoming("lodash.ts").is_empty());
    assert_eq!(g.resolve_import("lodash", "a.ts"), None);
}

#[test]
fn unlisted_files_are_never_targets() {
    let files = project_files(&strings(&["src/a.ts", ".git/config", "src/b.ts"]));
    let paths: Vec<String> = files.iter().map(|f| f.path.clone()).collect();
    assert_eq!(paths, strings(&["src/a.ts", "src/b.ts"]));
    let contents = strings(&["import x from '../dist/out'; import './b'", ""]);
    let g = build_graph(&paths, &contents);
    assert_eq!(g.outgoing("src/a.ts"), strings(&["src/b.ts"]));
    assert!(!g.contains_file("dist/out.ts"));
}

#[test]
fn add_file_twice_same_identity() {
    let mut g = ProjectGraph::new();
    let a = g.add_file("a.ts".to_string());
    let b = g.add_file("b.ts".to_string());
    let a2 = g.add_file("a.ts".to_string());
    let a3 = g.add_file("./a.ts".to_string());
    assert_eq!(a, a2);
    assert_eq!(a, a3);
    assert_ne!(a, b);
    assert_eq!(g.node_name("./a.ts"), Some("a.ts".to_string()));
    let c = g.add_file("src/lib/x.tsx".to_string());
    assert_eq!(g.add_file("src/lib/x.tsx".to_string()), c);
    assert_eq!(g.node_name("src/lib/x.tsx"), Some("x.tsx".to_string()));
    assert_eq!(g.node_name("nope.ts"), None);
    g.add_dependency("a.ts".to_string(), "b.ts".to_string());
    g.add_file("b.ts".to_string());
    assert_eq!(g.outgoing("a.ts"), strings(&["b.ts"]));
    assert_eq!(g.incoming("b.ts"), strings(&["a.ts"]));
}

#[test]
fn repeated_edge_is_held_once() {
    let mut g = ProjectGraph::new();
    for _ in 0..3 {
        g.add_dependency("a.ts".to_string(), "b.ts".to_string());
    }
    assert_eq!(g.outgoing("a.ts"), strings(&["b.ts"]));
    assert_eq!(g.incoming("b.ts"), strings(&["a.ts"]));
    let g2 = build_graph(
        &strings(&["a.ts", "b.ts"]),
        &strings(&["import './b'\nimport x from './b.ts'\nrequire('./b')", ""]),
    );
    assert_eq!(g2.outgoing("a.ts"), strings(&["b.ts"]));
}

#[test]
fn outgoing_and_incoming_agree() {
    let files = strings(&["a.ts", "b.ts", "c.ts"]);
    let contents = strings(&["import './b'; import './c'", "import './c'", "import './a'"]);
    let g = build_graph(&files, &contents);
    for p in &files {
        for q in &files {
            let forward = g.outgoing(p).contains(q);
            let backward = g.incoming(q).contains(p);
            assert_eq!(forward, backward);
        }
    }
    assert_eq!(sorted(g.outgoing("a.ts")), strings(&["b.ts", "c.ts"]));
    assert_eq!(sorted(g.incoming("c.ts")), strings(&["a.ts", "b.ts"]));
}

#[test]
fn non_relative_imports_never_resolve() {
    let g = build_graph(&strings(&["a.ts", "b.ts", "react", "@scope/pkg"]), &strings(&["", "", "", ""]));
    assert_eq!(g.resolve_import("b", "a.ts"), None);
    assert_eq!(g.resolve_import("react", "a.ts"), None);
    assert_eq!(g.resolve_import("@scope/pkg", "a.ts"), None);
    assert_eq!(g.resolve_import("", "a.ts"), None);
    assert!(!is_relative_import("react"));
    assert!(is_relative_import("./b"));
    assert!(is_relative_import("../b"));
}

#[test]
fn isolated_file_has_no_neighbors() {
    let g = build_graph(&strings(&["a.ts", "b.ts", "c.ts"]), &strings(&["import './b'", "", ""]));
    assert!(g.outgoing("c.ts").is_empty());
    assert!(g.incoming("c.ts").is_empty());
    assert!(g.contains_file("c.ts"));
}

#[test]
fn unknown_path_has_no_neighbors() {
    let g = build_graph(&strings(&["a.ts"]), &strings(&[""]));
    assert!(g.outgoing("zzz.ts").is_empty());
    assert!(g.incoming("zzz.ts").is_empty());
}

#[test]
fn candidate_order() {
    let base = "lib/util".to_string();
    let expected = [
        "lib/util",
        "lib/util.ts",
        "lib/util.tsx",
        "lib/util.js",
        "lib/util.jsx",
        "lib/util/index.ts",
        "lib/util/index.tsx",
        "lib/util/index.js",
        "lib/util/index.jsx",
    ];
    for (k, e) in expected.iter().enumerate() {
        assert_eq!(candidate_at(&base, k), e.to_string());
    }
    assert_eq!(candidate_at(&String::new(), 5), "index.ts".to_string());
}

#[test]
fn resolution_prefers_earlier_candidates() {
    let g = build_graph(&strings(&["a.ts", "b.ts", "b.js", "b/index.ts"]), &strings(&["", "", "", ""]));
    assert_eq!(g.resolve_import("./b", "a.ts"), Some("b.ts".to_string()));
    let g = build_graph(&strings(&["a.ts", "b.jsx", "b/index.ts"]), &strings(&["", "", ""]));
    assert_eq!(g.resolve_import("./b", "a.ts"), Some("b.jsx".to_string()));
    let g = build_graph(&strings(&["a.ts", "b/index.js"]), &strings(&["", ""]));
    assert_eq!(g.resolve_import("./b", "a.ts"), Some("b/index.js".to_string()));
    let g = build_graph(&strings(&["a.ts", "b.css"]), &strings(&["", ""]));
    assert_eq!(g.resolve_import("./b.css", "a.ts"), Some("b.css".to_string()));
    assert_eq!(g.resolve_import("./b", "a.ts"), None);
}

#[test]
fn parent_directory_imports_resolve() {
    let files = strings(&["src/app/main.ts", "src/lib.ts", "shared/x.tsx"]);
    let contents = strings(&["import { f } from '../lib'\nimport * as x from '../../shared/x'", "", ""]);
    let g = build_graph(&files, &contents);
    assert_eq!(sorted(g.outgoing("src/app/main.ts")), strings(&["shared/x.tsx", "src/lib.ts"]));
    assert_eq!(g.incoming("./src/lib.ts"), strings(&["src/app/main.ts"]));
    assert_eq!(import_base_of("../lib", "src/app/main.ts"), "src/lib".to_string());
    assert_eq!(import_base_of("./x", "a.ts"), "x".to_string());
    assert_eq!(import_base_of("../../x", "a.ts"), "../../x".to_string());
    assert_eq!(import_base_of("../../x", "a/b/c.ts"), "x".to_string());
}

#[test]
fn self_import_is_a_loop() {
    let g = build_graph(&strings(&["a.ts"]), &strings(&["import './a'"]));
    assert_eq!(g.outgoing("a.ts"), strings(&["a.ts"]));
    assert_eq!(g.incoming("a.ts"), strings(&["a.ts"]));
}

#[test]
fn only_scanned_extensions_are_read() {
    let g = build_graph(&strings(&["a.md", "b.ts", "c.rs"]), &strings(&["import './b'", "", "import './b'"]));
    assert!(g.outgoing("a.md").is_empty());
    assert_eq!(g.outgoing("c.rs"), strings(&["b.ts"]));
    assert!(is_scanned_path("x.tsx"));
    assert!(is_scanned_path("x.jsx"));
    assert!(is_scanned_path("x.js"));
    assert!(!is_scanned_path("x.json"));
    assert!(!is_scanned_path("Makefile"));
    assert!(imports_of_file("a.md", "import './b'").is_empty());
    assert_eq!(imports_of_file("a.js", "import './b'"), strings(&["./b"]));
}

#[test]
fn extraction_finds_both_forms() {
    let src = "import React from \"react\";\nimport { a, b } from './x';\nimport * as ns from '../y';\nimport './side';\nconst z = require('./z');\nrequire(\"w\")";
    assert_eq!(extract_imports(src), strings(&["react", "./x", "../y", "./side", "./z", "w"]));
    assert!(extract_imports("const a = 1;").is_empty());
    assert!(extract_imports("").is_empty());
}

#[test]
fn paths_normalize() {
    assert_eq!(normalize_path("./a/../b/./c"), "b/c".to_string());
    assert_eq!(normalize_path("a//b/"), "a/b".to_string());
    assert_eq!(normalize_path("../a"), "../a".to_string());
    assert_eq!(normalize_path("a/.."), "".to_string());
    assert_eq!(split_segments("a/b"), strings(&["a", "b"]));
    assert_eq!(split_segments(""), strings(&[""]));
    assert_eq!(file_name_of("src/x/y.ts"), "y.ts".to_string());
}

#[test]
fn extensions() {
    assert_eq!(extension_of("src/a.ts"), Some("ts".to_string()));
    assert_eq!(extension_of("a.b.tsx"), Some("tsx".to_string()));
    assert_eq!(extension_of(".env"), Some("env".to_string()));
    assert_eq!(extension_of("config/.eslintrc.json"), Some("json".to_string()));
    assert_eq!(extension_of("Makefile"), None);
    assert_eq!(extension_of("dir.d/file"), None);
    assert_eq!(extension_of("a."), Some("".to_string()));
}

#[test]
fn vcs_directory_is_skipped() {
    assert!(file_info_for(".git/HEAD".to_string()).is_none());
    assert!(file_info_for("sub/.git/x".to_string()).is_none());
    let f = file_info_for(".gitignore".to_string()).unwrap();
    assert_eq!(f.path, ".gitignore".to_string());
    assert_eq!(f.extension, Some("gitignore".to_string()));
    let f = file_info_for("src/m.rs".to_string()).unwrap();
    assert_eq!(f.extension, Some("rs".to_string()));
}

#[test]
fn explicit_imports_build_edges() {
    let files = strings(&["a.ts", "b.ts"]);
    let imports = vec![strings(&["./b", "./b", "fs"]), vec![]];
    let g = build_graph_from_imports(&files, &imports);
    assert_eq!(g.outgoing("a.ts"), strings(&["b.ts"]));
    assert!(g.outgoing("b.ts").is_empty());
}

#[test]
fn context_lists_neighbors() {
    let files = vec![
        FileInfo { path: "a.ts".to_string(), extension: Some("ts".to_string()) },
        FileInfo { path: "b.ts".to_string(), extension: Some("ts".to_string()) },
        FileInfo { path: "README".to_string(), extension: None },
    ];
    let contents = strings(&["import './b'", "", ""]);
    let manifest = PackageJson {
        name: Some("demo".to_string()),
        version: None,
        dependencies: None,
        dev_dependencies: None,
        scripts: None,
    };
    let ctx = assemble_context(&files, &contents, Some(manifest));
    assert_eq!(ctx.files.len(), 3);
    assert_eq!(ctx.files[0].path, "a.ts".to_string());
    assert_eq!(ctx.files[0].imports, strings(&["b.ts"]));
    assert!(ctx.files[0].imported_by.is_empty());
    assert_eq!(ctx.files[1].imported_by, strings(&["a.ts"]));
    assert_eq!(ctx.files[2].extension, None);
    assert!(ctx.files[2].imports.is_empty());
    assert_eq!(ctx.package_json.unwrap().name, Some("demo".to_string()));
    let empty = assemble_context(&vec![], &vec![], None);
    assert!(empty.files.is_empty());
    assert!(empty.package_json.is_none());
}

#[test]
fn duplicated_file_list_gives_one_node() {
    let g = build_graph(
        &strings(&["a.ts", "a.ts", "./b.ts", "b.ts"]),
        &strings(&["import './b'", "import './b'", "", ""]),
    );
    assert_eq!(g.outgoing("a.ts"), strings(&["b.ts"]));
    assert_eq!(g.incoming("b.ts"), strings(&["a.ts"]));
    assert_eq!(g.node_name("b.ts"), Some("b.ts".to_string()));
}

#[test]
fn absolute_and_scoped_imports_give_no_edge() {
    let g = build_graph(
        &strings(&["a.ts", "x.ts", "abs/x.ts"]),
        &strings(&["import y from '/abs/x'\nrequire('@scope/x')\nimport 'x'", "", ""]),
    );
    assert!(g.outgoing("a.ts").is_empty());
    assert!(g.incoming("x.ts").is_empty());
    assert!(g.incoming("abs/x.ts").is_empty());
}
