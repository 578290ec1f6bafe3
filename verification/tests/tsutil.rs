use depgraph::disk::Disk;
use depgraph::facts::ImportWant;
use depgraph::lang::js_ts::scan;
use depgraph::syntax::{parse, Grammar};
use depgraph::tsutil::{is_under_node_modules, list_js_like_candidates, resolve_js_like_file};

fn disk(files: &[&str]) -> Disk {
    let mut d = Disk::new();
    for f in files {
        d.record(f.to_string(), Some(f.to_string()));
    }
    d
}

#[test]
fn node_modules_is_a_part_of_a_path() {
    assert!(is_under_node_modules("/r/node_modules/x"));
    assert!(is_under_node_modules("node_modules"));
    assert!(is_under_node_modules("a//node_modules/"));
    assert!(!is_under_node_modules("/r/my_node_modules/x"));
    assert!(!is_under_node_modules("/r/node_modules.ts"));
    assert!(!is_under_node_modules(""));
}

#[test]
fn script_files_are_found_as_they_are_or_with_more() {
    let at = |path: &str, files: &[&str]| resolve_js_like_file(path, &disk(files));
    assert_eq!(at("/a", &["/a", "/a.ts"]), Some("/a".to_string()));
    assert_eq!(at("/a", &["/a.js", "/a.ts"]), Some("/a.ts".to_string()));
    assert_eq!(at("/a", &["/a.json", "/a/index.ts"]), Some("/a.json".to_string()));
    assert_eq!(at("/a", &["/a/index.cjs", "/a/index.jsx"]), Some("/a/index.jsx".to_string()));
    assert_eq!(at("/a/", &["/a/index.ts"]), Some("/a/index.ts".to_string()));
    assert_eq!(at("/a", &["/a/index.json", "/a.py"]), None);
    assert_eq!(at("/node_modules/a", &["/node_modules/a"]), None);
}

#[test]
fn no_candidate_lies_under_node_modules() {
    for path in ["/a", "/a/", "", "node", "/r/node_module", "/r/my_node_modules", "/r/node_modules"] {
        for candidate in list_js_like_candidates(path) {
            assert!(!is_under_node_modules(&candidate), "{candidate}");
        }
    }
}

#[test]
fn what_a_script_says_of_reexports_fits_together() {
    let src = "export { b, a as c } from './x';\nexport * as ns from './y';\nexport * from './z';\nexport { b } from './x';\n";
    let s = scan(&parse(Grammar::TypeScript, src).unwrap().unwrap(), src);
    assert!(s.has_reexports);
    assert!(s.exports.windows(2).all(|w| w[0] < w[1]));
    for (name, spec, _) in &s.name_sources {
        assert!(s.exports.contains(name));
        assert!(s.edges.iter().any(|(e, _)| e == spec));
    }
    for spec in &s.wildcards {
        assert!(s.exports.contains(&"*".to_string()));
        assert!(s.edges.iter().any(|(e, w)| e == spec && matches!(w, ImportWant::All)));
    }
    assert_eq!((s.name_sources.len(), s.wildcards.len()), (4, 1));
}
