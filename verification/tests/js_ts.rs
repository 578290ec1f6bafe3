use depgraph::disk::Disk;
use depgraph::facts::{DepRef, FileFacts, ImportWant};
use depgraph::lang::js_pkg::{scan_packages, JsPackageIndex, Manifest};
use depgraph::lang::js_ts::{analyze, list_probes, scan, Script};
use depgraph::lang::specifier::{list_candidates, resolve_specifier};
use depgraph::lang::ts_paths::{scan as scan_configs, ConfigSource, TsPathsIndex};
use depgraph::syntax::{parse, Grammar, SyntaxTree};

fn tree(src: &str) -> SyntaxTree {
    parse(Grammar::TypeScript, src).unwrap().unwrap()
}

fn script(src: &str) -> Script {
    scan(&tree(src), src)
}

fn want(w: &ImportWant) -> String {
    match w {
        ImportWant::All => "*".to_string(),
        ImportWant::Named(names) => names.join(","),
    }
}

fn edges(s: &Script) -> Vec<(String, String)> {
    let mut list: Vec<(String, String)> = s.edges.iter().map(|(spec, w)| (spec.clone(), want(w))).collect();
    list.reverse();
    list
}

fn pair(a: &str, b: &str) -> (String, String) {
    (a.to_string(), b.to_string())
}

fn disk(files: &[&str]) -> Disk {
    let mut d = Disk::new();
    for f in files {
        d.record(f.to_string(), Some(f.to_string()));
    }
    d
}

fn show(d: &DepRef) -> String {
    match d {
        DepRef::Internal(p) => format!("in:{p}"),
        DepRef::External(s) => format!("out:{s}"),
    }
}

#[test]
fn imports_state_what_they_need() {
    let s = script(
        "import def, { a as b, c } from './mod';\nimport * as ns from \"pkg\";\nimport './side';\nimport d2 from 'd';\nimport {} from 'e';\n",
    );
    assert_eq!(
        edges(&s),
        vec![
            pair("./mod", "default,a,c"),
            pair("pkg", "*"),
            pair("./side", "*"),
            pair("d", "default"),
            pair("e", ""),
        ]
    );
    assert!(!s.has_reexports);
    assert!(!s.has_local_exports);
    assert!(s.exports.is_empty());
}

#[test]
fn reexports_state_where_names_come_from() {
    let s = script("export { x, y as z } from './x';\nexport * as all from './all';\nexport * from './rest';\n");
    assert_eq!(edges(&s), vec![pair("./x", "x,y"), pair("./all", "*"), pair("./rest", "*")]);
    assert_eq!(s.exports, ["*", "all", "x", "z"]);
    let named = |name: &str, spec: &str, there: Option<&str>| {
        (name.to_string(), spec.to_string(), there.map(str::to_string))
    };
    assert_eq!(
        s.name_sources,
        vec![named("all", "./all", None), named("x", "./x", Some("x")), named("z", "./x", Some("y"))]
    );
    assert_eq!(s.wildcards, ["./rest"]);
    assert!(s.has_reexports);
    assert!(!s.has_local_exports);
}

#[test]
fn local_exports_are_named() {
    let s = script(
        "export default 1;\nexport function f() {}\nexport const p = 1, q = 2, { r } = o;\nexport class K {}\nexport interface I {}\nexport type T = I;\nexport enum E { A }\nexport { p as x, q as default };\nexport function* g() {}\n",
    );
    assert_eq!(s.exports, ["*", "E", "I", "K", "T", "default", "f", "g", "p", "q", "x"]);
    assert!(s.has_local_exports);
    assert!(!s.has_reexports);
    assert!(s.edges.is_empty());
}

#[test]
fn exports_are_in_order_and_once() {
    let s = script("export { b };\nexport { a, b };\nexports.b = 1;\n");
    assert_eq!(s.exports, ["a", "b"]);
}

#[test]
fn common_js_is_understood() {
    let s = script(
        "const a = require('./a');\nmodule.exports = {};\nexports.one = 1;\nother.two = 2;\nasync function f() { await import('./dyn'); }\nrequire(name);\nfoo('./no');\n",
    );
    assert_eq!(edges(&s), vec![pair("./a", "*"), pair("./dyn", "*")]);
    assert_eq!(s.exports, ["*", "one"]);
    assert!(s.has_local_exports);
}

#[test]
fn a_require_in_an_export_is_an_edge_too() {
    let s = script("export default require('./x');\n");
    assert_eq!(edges(&s), vec![pair("./x", "*")]);
    assert_eq!(s.exports, ["default"]);
}

#[test]
fn relative_specifiers_lead_to_files() {
    let none = JsPackageIndex::default();
    let plain = TsPathsIndex::default();
    let d = disk(&["/r/src/./a.ts", "/r/src/./lib/index.js", "/r/top.json", "/r/src/../b.tsx", "/r/src/./c", "/r/src/./c.ts"]);
    let at = |spec: &str| show(&resolve_specifier("/r", "/r/src", spec, &none, &plain, &d));
    assert_eq!(at("./a"), "in:src/./a.ts");
    assert_eq!(at("./lib"), "in:src/./lib/index.js");
    assert_eq!(at("/top"), "in:top.json");
    assert_eq!(at("//top"), "in:top.json");
    assert_eq!(at("./c"), "in:src/./c");
    assert_eq!(at("./gone"), "out:./gone");
    assert_eq!(at("react"), "out:react");
    assert_eq!(at(""), "out:");
}

#[test]
fn canonical_paths_decide() {
    let none = JsPackageIndex::default();
    let plain = TsPathsIndex::default();
    let mut d = Disk::new();
    d.record("/r/src/../b.ts".to_string(), Some("/r/b.ts".to_string()));
    d.record("/r/src/./linked.ts".to_string(), Some("/r/node_modules/x/linked.ts".to_string()));
    d.record("/r/src/./outside.ts".to_string(), Some("/other/outside.ts".to_string()));
    d.record("/r/src/./broken.ts".to_string(), None);
    let at = |spec: &str| show(&resolve_specifier("/r", "/r/src", spec, &none, &plain, &d));
    assert_eq!(at("../b"), "in:b.ts");
    assert_eq!(at("./linked"), "out:./linked");
    assert_eq!(at("./outside"), "out:./outside");
    assert_eq!(at("./broken"), "out:./broken");
}

#[test]
fn nothing_is_looked_for_under_node_modules() {
    let none = JsPackageIndex::default();
    let plain = TsPathsIndex::default();
    assert!(list_candidates("/r", "/r/src", "./node_modules/x", &none, &plain).is_empty());
    let list = list_candidates("/r", "/r/src", "./a", &none, &plain);
    assert_eq!(list.len(), 14);
    assert_eq!(list[0], "/r/src/./a");
    assert_eq!(list[7], "/r/src/./a.json");
    assert_eq!(list[13], "/r/src/./a/index.cjs");
}

#[test]
fn aliases_come_before_packages() {
    let packages = scan_packages(&vec![Manifest {
        path: "/r/packages/lib/package.json".to_string(),
        text: "{\"name\": \"lib\", \"main\": \"main.js\"}".to_string(),
    }]);
    let configs = scan_configs(&vec![vec![ConfigSource {
        path: "/r/tsconfig.json".to_string(),
        text: Some("{\"compilerOptions\": {\"baseUrl\": \".\"}}".to_string()),
    }]]);
    let with_both = disk(&["/r/./lib.ts", "/r/packages/lib/main.js"]);
    let only_package = disk(&["/r/packages/lib/main.js"]);
    let at = |d: &Disk| show(&resolve_specifier("/r", "/r/src", "lib", &packages, &configs, d));
    assert_eq!(at(&with_both), "in:lib.ts");
    assert_eq!(at(&only_package), "in:packages/lib/main.js");
    assert_eq!(at(&Disk::new()), "out:lib");
}

#[test]
fn a_script_is_linked() {
    let src = "import { a } from './a';\nexport { b as c } from './b';\nexport * from 'ext';\n";
    let t = tree(src);
    let none = JsPackageIndex::default();
    let plain = TsPathsIndex::default();
    let d = disk(&["/r/./a.ts", "/r/./b.ts"]);
    let facts: FileFacts = analyze(&t, src, "/r", "/r", &none, &plain, &d);
    let mut deps: Vec<(String, String)> =
        facts.dependencies.iter().map(|x| (show(&x.target), want(&x.want))).collect();
    deps.reverse();
    assert_eq!(deps, vec![pair("in:a.ts", "a"), pair("in:b.ts", "b"), pair("out:ext", "*")]);
    assert_eq!(facts.exports, ["*", "c"]);
    assert!(facts.has_reexports && !facts.has_local_exports);
    assert_eq!(facts.name_sources.len(), 1);
    assert_eq!(facts.name_sources[0].0, "c");
    assert_eq!(show(&facts.name_sources[0].1.target), "in:b.ts");
    assert_eq!(facts.name_sources[0].1.name, Some("b".to_string()));
    assert_eq!(facts.wildcard_fallbacks.iter().map(show).collect::<Vec<String>>(), ["out:ext"]);
}

#[test]
fn only_probes_are_looked_for() {
    let src = "import './a';\nexport { b } from './b';\nexport * from './c';\n";
    let t = tree(src);
    let s = scan(&t, src);
    let none = JsPackageIndex::default();
    let plain = TsPathsIndex::default();
    let probes = list_probes(&s, "/r", "/r/src", &none, &plain);
    for name in ["a", "b", "c"] {
        assert!(probes.contains(&format!("/r/src/./{name}.ts")));
    }
    let mut known = Disk::new();
    let mut more = Disk::new();
    for p in &probes {
        if p.ends_with(".tsx") {
            known.record(p.clone(), Some(p.clone()));
            more.record(p.clone(), Some(p.clone()));
        }
    }
    more.record("/r/unrelated.ts".to_string(), None);
    let one = analyze(&t, src, "/r", "/r/src", &none, &plain, &known);
    let two = analyze(&t, src, "/r", "/r/src", &none, &plain, &more);
    assert_eq!(format!("{one:?}"), format!("{two:?}"));
    assert!(format!("{one:?}").contains("src/./a.tsx"));
}
