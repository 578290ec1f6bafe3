use depgraph::disk::Disk;
use depgraph::graph::{build_graph, GraphOptions};
use depgraph::hash::content_hash;
use depgraph::lang::js_pkg::{scan_packages, JsPackageIndex, Manifest};
use depgraph::lang::ts_paths::TsPathsIndex;
use depgraph::model::{Graph, Node};
use depgraph::scan::{choose_grammar, list_probes, scan_file, FileScan};
use depgraph::syntax::Grammar;
use depgraph::walk::{detect_lang, SourceFile};

fn file(rel: &str) -> SourceFile {
    let abs_path = format!("/r/{rel}");
    let lang = detect_lang(&abs_path).unwrap();
    SourceFile { abs_path, rel_path: rel.to_string(), lang }
}

fn plain(path: &str) -> String {
    let mut parts: Vec<&str> = Vec::new();
    for part in path.split('/') {
        match part {
            "" | "." => {}
            ".." => {
                parts.pop();
            }
            p => parts.push(p),
        }
    }
    format!("/{}", parts.join("/"))
}

fn build_with(files: &[(&str, &str)], packages: &JsPackageIndex, opts: &GraphOptions) -> Graph {
    let configs = TsPathsIndex::default();
    let scans: Vec<FileScan> =
        files.iter().map(|(rel, src)| scan_file("/r", &file(rel), src).unwrap().unwrap()).collect();
    let mut disk = Disk::new();
    for scan in &scans {
        for path in list_probes(scan, "/r", packages, &configs) {
            let real = plain(&path);
            if files.iter().any(|(rel, _)| format!("/r/{rel}") == real) {
                disk.record(path, Some(real));
            }
        }
    }
    build_graph("/r", &scans, packages, &configs, &disk, "now".to_string(), opts)
}

fn build(files: &[(&str, &str)], barrels: bool, external: bool) -> Graph {
    let opts = GraphOptions { include_external: external, include_barrels: barrels };
    build_with(files, &JsPackageIndex::default(), &opts)
}

fn at<'a>(g: &'a Graph, path: &str) -> &'a Node {
    &g.nodes.iter().find(|(p, _)| p == path).unwrap().1
}

fn paths(g: &Graph) -> Vec<&str> {
    g.nodes.iter().map(|(p, _)| p.as_str()).collect()
}

const BARREL: [(&str, &str); 5] = [
    ("app.ts", "import { FOO } from './lib';\nimport React from 'react';\n"),
    ("other.ts", "import * as lib from './lib';\n"),
    ("lib/index.ts", "export { FOO } from './foo';\nexport * from './baz';\n"),
    ("lib/foo.ts", "export const FOO = 1;\n"),
    ("lib/baz.ts", "export const BAZ = 2;\nimport './foo';\n"),
];

#[test]
fn barrels_are_skipped_through() {
    let g = build(&BARREL, false, false);
    assert_eq!(paths(&g), ["app.ts", "lib/baz.ts", "lib/foo.ts", "other.ts"]);
    assert_eq!(g.root, "/r");
    assert_eq!(g.generated_at, "now");
    assert_eq!(at(&g, "app.ts").dependencies, ["lib/foo.ts"]);
    assert_eq!(at(&g, "other.ts").dependencies, ["lib/baz.ts", "lib/foo.ts"]);
    assert_eq!(at(&g, "lib/foo.ts").dependents, ["app.ts", "lib/baz.ts", "other.ts"]);
    assert_eq!(at(&g, "lib/baz.ts").dependents, ["other.ts"]);
    for (_, n) in &g.nodes {
        assert_eq!(n.is_barrel, None);
        assert!(n.effective_dependencies.is_none());
        assert!(n.effective_dependents.is_none());
        assert!(n.external_dependencies.is_none());
        assert_eq!(n.hash.len(), 16);
    }
}

#[test]
fn barrels_are_kept_on_request() {
    let g = build(&BARREL, true, true);
    assert_eq!(paths(&g), ["app.ts", "lib/baz.ts", "lib/foo.ts", "lib/index.ts", "other.ts"]);
    let barrel = at(&g, "lib/index.ts");
    assert_eq!(barrel.is_barrel, Some(true));
    assert_eq!(barrel.exports, ["*", "FOO"]);
    assert_eq!(barrel.dependencies, ["lib/baz.ts", "lib/foo.ts"]);
    assert_eq!(barrel.dependents, ["app.ts", "other.ts"]);
    assert_eq!(barrel.effective_dependents, Some(vec![]));
    let app = at(&g, "app.ts");
    assert_eq!(app.is_barrel, Some(false));
    assert_eq!(app.dependencies, ["lib/index.ts"]);
    assert_eq!(app.effective_dependencies, Some(vec!["lib/foo.ts".to_string()]));
    assert_eq!(app.external_dependencies, Some(vec!["react".to_string()]));
    let foo = at(&g, "lib/foo.ts");
    assert_eq!(foo.dependents, ["lib/baz.ts", "lib/index.ts"]);
    assert_eq!(
        foo.effective_dependents,
        Some(["app.ts", "lib/baz.ts", "lib/index.ts", "other.ts"].map(|s| s.to_string()).to_vec())
    );
}

#[test]
fn dependents_mirror_dependencies() {
    for barrels in [false, true] {
        let g = build(&BARREL, barrels, false);
        for (a, x) in &g.nodes {
            assert!(!x.dependencies.contains(a));
            for (b, y) in &g.nodes {
                assert_eq!(x.dependencies.contains(b), y.dependents.contains(a));
            }
            for d in x.dependencies.iter().chain(&x.dependents) {
                assert!(g.nodes.iter().any(|(p, _)| p == d));
            }
        }
    }
}

#[test]
fn a_name_behind_two_barrels_is_found() {
    let g = build(
        &[
            ("app.ts", "import { A } from './outer';\n"),
            ("outer.ts", "export * from './inner';\n"),
            ("inner.ts", "export * from './a';\nexport * from './b';\n"),
            ("a.ts", "export const A = 1;\n"),
            ("b.ts", "export const B = 1;\n"),
        ],
        false,
        false,
    );
    assert_eq!(paths(&g), ["a.ts", "app.ts", "b.ts"]);
    assert_eq!(at(&g, "app.ts").dependencies, ["a.ts"]);
    assert!(at(&g, "b.ts").dependents.is_empty());
}

#[test]
fn an_unknown_name_leads_everywhere() {
    let g = build(
        &[
            ("app.ts", "import { Nope } from './lib';\n"),
            ("lib.ts", "export { A } from './a';\nexport { B } from './b';\n"),
            ("a.ts", "export const A = 1;\n"),
            ("b.ts", "export const B = 1;\n"),
        ],
        false,
        false,
    );
    assert_eq!(at(&g, "app.ts").dependencies, ["a.ts", "b.ts"]);
}

#[test]
fn an_unknown_name_leads_to_open_wildcards_first() {
    let g = build(
        &[
            ("app.ts", "import { N } from './lib';\n"),
            ("lib.ts", "export { A } from './a';\nexport * from './open';\n"),
            ("a.ts", "export const A = 1;\n"),
            ("open.js", "module.exports = {};\n"),
        ],
        false,
        false,
    );
    assert_eq!(at(&g, "app.ts").dependencies, ["open.js"]);
}

#[test]
fn a_name_from_outside_leads_nowhere() {
    let g = build(
        &[
            ("app.ts", "import { useState } from './lib';\n"),
            ("lib.ts", "export { useState } from 'react';\nexport { A } from './a';\n"),
            ("a.ts", "export const A = 1;\n"),
        ],
        false,
        false,
    );
    assert!(at(&g, "app.ts").dependencies.is_empty());
}

#[test]
fn barrels_that_form_a_ring_are_followed_once() {
    let g = build(
        &[
            ("app.ts", "import * as x from './one';\n"),
            ("one.ts", "export * from './two';\nexport * from './a';\n"),
            ("two.ts", "export * from './one';\n"),
            ("a.ts", "import './app';\nexport const A = 1;\n"),
        ],
        false,
        false,
    );
    assert_eq!(at(&g, "app.ts").dependencies, ["a.ts"]);
    assert_eq!(at(&g, "a.ts").dependencies, ["app.ts"]);
}

#[test]
fn a_file_that_is_not_scanned_is_no_dependency() {
    let configs = TsPathsIndex::default();
    let none = JsPackageIndex::default();
    let scans = vec![scan_file("/r", &file("a.ts"), "import './gone';\nimport './a';\n").unwrap().unwrap()];
    let mut disk = Disk::new();
    disk.record("/r/./gone.ts".to_string(), Some("/r/gone.ts".to_string()));
    disk.record("/r/./a.ts".to_string(), Some("/r/a.ts".to_string()));
    let opts = GraphOptions { include_external: true, include_barrels: true };
    let g = build_graph("/r", &scans, &none, &configs, &disk, "".to_string(), &opts);
    assert!(at(&g, "a.ts").dependencies.is_empty());
    assert_eq!(at(&g, "a.ts").external_dependencies, Some(vec![]));
}

#[test]
fn all_languages_meet_in_one_graph() {
    let g = build(
        &[
            ("a/A.java", "package a;\nimport a.B;\nimport java.util.List;\nclass A {}\n"),
            ("a/B.java", "package a;\nimport a.*;\nclass B {}\n"),
            ("p/__init__.py", "from .m import f\n"),
            ("p/m.py", "def f(): pass\n"),
            ("use.py", "from p import f\n"),
            ("c.tsx", "import x from './d.js';\nexport const V = () => <div/>;\n"),
            ("d.js", "exports.x = 1;\n"),
        ],
        false,
        true,
    );
    assert_eq!(paths(&g), ["a/A.java", "a/B.java", "c.tsx", "d.js", "p/m.py", "use.py"]);
    assert_eq!(at(&g, "a/A.java").dependencies, ["a/B.java"]);
    assert_eq!(at(&g, "a/A.java").exports, ["A"]);
    assert_eq!(at(&g, "a/A.java").external_dependencies, Some(vec!["java.util.List".to_string()]));
    assert_eq!(at(&g, "a/B.java").dependencies, ["a/A.java"]);
    assert_eq!(at(&g, "use.py").dependencies, ["p/m.py"]);
    assert_eq!(at(&g, "c.tsx").dependencies, ["d.js"]);
    assert_eq!(at(&g, "d.js").exports, ["x"]);
}

#[test]
fn workspace_packages_are_internal() {
    let packages = scan_packages(&vec![Manifest {
        path: "/r/lib/package.json".to_string(),
        text: "{\"name\": \"@w/lib\", \"main\": \"dist/index.js\"}".to_string(),
    }]);
    let files = [("app.ts", "import { a } from '@w/lib';\nimport 'left-pad';\n"), ("lib/src/index.ts", "export const a = 1;\n")];
    let opts = GraphOptions { include_external: true, include_barrels: false };
    let g = build_with(&files, &packages, &opts);
    assert_eq!(at(&g, "app.ts").dependencies, ["lib/src/index.ts"]);
    assert_eq!(at(&g, "app.ts").external_dependencies, Some(vec!["left-pad".to_string()]));
}

#[test]
fn the_same_tree_gives_the_same_graph() {
    let one = format!("{:?}", build(&BARREL, true, true));
    let mut shuffled = BARREL;
    shuffled.reverse();
    assert_eq!(one, format!("{:?}", build(&shuffled, true, true)));
}

#[test]
fn options_start_off() {
    let opts = GraphOptions::default();
    assert!(!opts.include_external && !opts.include_barrels);
}

#[test]
fn grammars_follow_languages() {
    assert_eq!(choose_grammar(&file("a.ts")), Grammar::TypeScript);
    assert_eq!(choose_grammar(&file("a.TSX")), Grammar::Tsx);
    assert_eq!(choose_grammar(&file("a.jsx")), Grammar::JavaScript);
    assert_eq!(choose_grammar(&file("a.pyi")), Grammar::Python);
    assert_eq!(choose_grammar(&file("a.java")), Grammar::Java);
}

#[test]
fn a_scan_knows_its_directory() {
    let scan = scan_file("/r", &file("a/b.ts"), "").unwrap().unwrap();
    assert_eq!((scan.rel.as_str(), scan.dir.as_str()), ("a/b.ts", "/r/a"));
    let same = scan_file("/r", &file("c.ts"), "").unwrap().unwrap();
    assert_eq!(scan.hash, same.hash);
}

#[test]
fn without_barrels_effective_is_direct() {
    let files = [
        ("a.ts", "import { b } from './b';\nimport './c';\n"),
        ("b.ts", "export const b = 1;\nimport './c';\n"),
        ("c.ts", "export const c = 1;\n"),
    ];
    let g = build(&files, true, false);
    assert_eq!(g.nodes.len(), files.len());
    for (_, n) in &g.nodes {
        assert_eq!(n.effective_dependencies.as_ref(), Some(&n.dependencies));
        assert_eq!(n.effective_dependents.as_ref(), Some(&n.dependents));
    }
    assert_eq!(at(&g, "a.ts").dependencies, ["b.ts", "c.ts"]);
}

#[test]
fn a_renamed_name_is_followed() {
    let g = build(
        &[
            ("c.ts", "import { z } from './a';"),
            ("a.ts", "export { y as z } from './b';"),
            ("b.ts", "export { y } from './impl'; export * from 'pkg';"),
            ("impl.ts", "export const y = 1;"),
        ],
        false,
        false,
    );
    assert_eq!(paths(&g), ["c.ts", "impl.ts"]);
    assert_eq!(at(&g, "c.ts").dependencies, ["impl.ts"]);
    assert_eq!(at(&g, "impl.ts").dependents, ["c.ts"]);
}

#[test]
fn a_name_is_followed_through_many_renames() {
    let g = build(
        &[
            ("c.ts", "import { p, q } from './a';"),
            ("a.ts", "export { q as p, p as q } from './b';"),
            ("b.ts", "export { q as p } from './one'; export { p as q } from './two';"),
            ("one.ts", "export { r as q, s } from './three';"),
            ("two.ts", "export const p = 1;"),
            ("three.ts", "export { deep as r, wide as s } from './four';"),
            ("four.ts", "export { deep } from './deep'; export { wide } from './wide';"),
            ("deep.ts", "export const deep = 1;"),
            ("wide.ts", "export const wide = 1;"),
        ],
        true,
        false,
    );
    let found = at(&g, "c.ts").effective_dependencies.clone().unwrap();
    assert_eq!(found, ["deep.ts", "two.ts"]);
}

#[test]
fn a_namespace_is_followed_to_everything() {
    let g = build(
        &[
            ("c.ts", "import { ns } from './a';"),
            ("a.ts", "export * as ns from './b';"),
            ("b.ts", "export { y } from './one'; export { z as ns } from './two';"),
            ("one.ts", "export const y = 1;"),
            ("two.ts", "export const z = 1;"),
        ],
        true,
        false,
    );
    assert_eq!(at(&g, "c.ts").effective_dependencies.clone().unwrap(), ["one.ts", "two.ts"]);
}

#[test]
fn renames_may_go_in_circles() {
    let g = build(
        &[
            ("c.ts", "import { x } from './a';"),
            ("a.ts", "export { y as x, z as y } from './b';"),
            ("b.ts", "export { y, x as z } from './a';"),
        ],
        true,
        false,
    );
    assert!(at(&g, "c.ts").effective_dependencies.clone().unwrap().is_empty());
}

#[test]
fn wildcard_names_are_asked_for_as_they_are() {
    let g = build(
        &[
            ("c.ts", "import { w } from './a';"),
            ("a.ts", "export { v as w } from './b';"),
            ("b.ts", "export * from './d'; export * from './e';"),
            ("d.ts", "export const u = 1;"),
            ("e.ts", "export { t as v } from './f'; export { v as t } from './g';"),
            ("f.ts", "export const t = 1;"),
            ("g.ts", "export const v = 1;"),
        ],
        true,
        false,
    );
    assert_eq!(at(&g, "c.ts").effective_dependencies.clone().unwrap(), ["f.ts"]);
}

#[test]
fn the_same_text_gives_the_same_scan() {
    let f = file("a.ts");
    let src = "import { x } from './x';\nexport { y as z } from './y';\n";
    let one = scan_file("/r", &f, src).unwrap().unwrap();
    let two = scan_file("/r", &f, src).unwrap().unwrap();
    assert_eq!((&one.rel, &one.dir, &one.hash), (&two.rel, &two.dir, &two.hash));
    assert_eq!(one.hash, content_hash(src.as_bytes()));
    let none = JsPackageIndex::default();
    let plain = TsPathsIndex::default();
    assert_eq!(list_probes(&one, "/r", &none, &plain), list_probes(&two, "/r", &none, &plain));
}

#[test]
fn the_same_sources_give_the_same_graph() {
    let one = build(&BARREL, true, true);
    let two = build(&BARREL, true, true);
    assert_eq!(paths(&one), paths(&two));
    for ((_, a), (_, b)) in one.nodes.iter().zip(&two.nodes) {
        assert_eq!(format!("{a:?}"), format!("{b:?}"));
    }
}

#[test]
fn a_python_package_stays_a_barrel() {
    let g = build(
        &[
            ("m.py", "from p import f\n"),
            ("p/__init__.py", "from .q import f\n"),
            ("p/q.py", "def f(): pass\n"),
        ],
        true,
        false,
    );
    assert_eq!(at(&g, "p/__init__.py").is_barrel, Some(true));
    assert_eq!(at(&g, "p/__init__.py").exports, ["*"]);
    assert_eq!(at(&g, "p/q.py").exports, ["f", "*"]);
    assert_eq!(at(&g, "m.py").effective_dependencies.clone().unwrap(), ["p/q.py"]);
}

#[test]
fn every_grammar_reads_every_text() {
    for rel in ["a.js", "a.ts", "a.tsx", "a.py", "a.java"] {
        for src in ["", "\u{0}", "}{", "\u{feff}\u{a0}\u{3b1}\u{4e2d}\u{1f600}"] {
            let scan = scan_file("/r", &file(rel), src).unwrap().unwrap();
            assert_eq!(scan.rel, rel);
            assert_eq!(scan.hash, content_hash(src.as_bytes()));
        }
    }
}

#[test]
fn a_script_beyond_ascii_keeps_its_node() {
    let g = build(
        &[
            ("a.ts", "// \u{fc}ber\nimport { gr\u{fc}n } from './b';\nexport const x = '\u{4e2d}';\n"),
            ("b.js", "export const gr\u{fc}n = '\u{a0}';\n"),
            ("c.tsx", "export const c = <p>\u{1f600}</p>;\nimport './a';\n"),
        ],
        false,
        false,
    );
    assert_eq!(paths(&g), ["a.ts", "b.js", "c.tsx"]);
    assert_eq!(at(&g, "a.ts").dependencies, ["b.js"]);
    assert_eq!(at(&g, "a.ts").exports, ["x"]);
    assert_eq!(at(&g, "b.js").exports, ["gr\u{fc}n"]);
    assert_eq!(at(&g, "c.tsx").dependencies, ["a.ts"]);
}
