use depgraph::disk::Disk;
use depgraph::json::parse;
use depgraph::lang::js_pkg::{
    exports_lookup, is_manifest_file, list_package_candidates, resolve_bare_specifier, scan_packages, split_specifier,
    Manifest,
};

fn manifest(path: &str, text: &str) -> Manifest {
    Manifest { path: path.to_string(), text: text.to_string() }
}

fn disk(files: &[&str]) -> Disk {
    let mut d = Disk::new();
    for f in files {
        d.record(f.to_string(), Some(f.to_string()));
    }
    d
}

#[test]
fn specifiers_are_split() {
    let split = |s: &str| split_specifier(s);
    assert_eq!(split("react"), ("react".to_string(), None));
    assert_eq!(split("a/utils/x"), ("a".to_string(), Some("utils/x".to_string())));
    assert_eq!(split("@scope/a"), ("@scope/a".to_string(), None));
    assert_eq!(split("@scope/a/utils/x"), ("@scope/a".to_string(), Some("utils/x".to_string())));
    assert_eq!(split("@scope"), ("@scope".to_string(), None));
    assert_eq!(split("a/"), ("a".to_string(), Some("".to_string())));
    assert_eq!(split(""), ("".to_string(), None));
}

#[test]
fn the_pieces_make_the_specifier() {
    for spec in ["a", "a/b", "@s/a", "@s/a/b/c", "@", "@/x/y", "/", "a//b"] {
        let (name, sub) = split_specifier(spec);
        let whole = match sub {
            Some(sub) => format!("{name}/{sub}"),
            None => name,
        };
        assert_eq!(whole, spec);
    }
}

#[test]
fn exports_are_looked_up() {
    let at = |json: &str, key: &str| exports_lookup(&parse(json).unwrap(), key);
    assert_eq!(at("\"./m.js\"", "."), Some("./m.js".to_string()));
    assert_eq!(at("\"./m.js\"", "./x"), None);
    assert_eq!(at("{\".\": \"./m.js\"}", "."), Some("./m.js".to_string()));
    assert_eq!(
        at("{\".\": {\"require\": \"./r\", \"default\": \"./d\", \"import\": \"./i\", \"types\": 1}}", "."),
        Some("./i".to_string())
    );
    assert_eq!(at("{\".\": {\"types\": \"./t\", \"import\": \"./i\"}}", "."), Some("./t".to_string()));
    assert_eq!(at("{\".\": {\"require\": \"./r\", \"module\": \"./m\"}}", "."), Some("./m".to_string()));
    assert_eq!(at("{\".\": {\"require\": \"./r\"}}", "."), Some("./r".to_string()));
    assert_eq!(at("{\".\": {\"browser\": \"./b\"}}", "."), None);
    assert_eq!(at("{\".\": [\"./m\"]}", "."), None);
    assert_eq!(at("[\".\"]", "."), None);
    assert_eq!(at("{\"./x\": \"./y\"}", "."), None);
}

#[test]
fn manifests_are_known_by_name() {
    assert!(is_manifest_file("/r/package.json"));
    assert!(!is_manifest_file("/r/package-lock.json"));
}

#[test]
fn packages_are_scanned() {
    let index = scan_packages(&vec![
        manifest("/r/a/package.json", "{\"name\": \"a\", \"main\": \"lib/main.js\"}"),
        manifest("/r/b/package.json", "{\"version\": \"1\"}"),
        manifest("/r/c/package.json", "{"),
        manifest("/r/d/other.json", "{\"name\": \"d\"}"),
        manifest("/r/a2/package.json", "{\"name\": \"a\", \"exports\": \"./x.js\"}"),
    ]);
    let a = index.by_name.get("a").unwrap();
    assert_eq!(a.root, "/r/a2");
    assert_eq!(a.main, None);
    assert!(a.exports.is_some());
    assert!(index.by_name.get("d").is_none());
    assert_eq!(index.by_name.len(), 1);
}

#[test]
fn packages_are_resolved() {
    let index = scan_packages(&vec![
        manifest(
            "/r/a/package.json",
            "{\"name\": \"a\", \"main\": \"dist/main.js\", \"exports\": {\".\": \"././src/entry.ts\", \"./u\": \"./src/u.ts\"}}",
        ),
        manifest("/r/b/package.json", "{\"name\": \"@s/b\", \"main\": \"dist/index.js\"}"),
    ]);
    let d = disk(&["/r/a/src/entry.ts", "/r/a/src/u.ts", "/r/a/v.js", "/r/b/src/index.ts", "/r/b/deep/x.ts"]);
    let at = |spec: &str| resolve_bare_specifier(&index, spec, &d);
    assert_eq!(at("a"), Some("/r/a/src/entry.ts".to_string()));
    assert_eq!(at("a/u"), Some("/r/a/src/u.ts".to_string()));
    assert_eq!(at("a/v"), Some("/r/a/v.js".to_string()));
    assert_eq!(at("a/w"), None);
    assert_eq!(at("@s/b"), Some("/r/b/src/index.ts".to_string()));
    assert_eq!(at("@s/b/deep/x"), Some("/r/b/deep/x.ts".to_string()));
    assert_eq!(at("react"), None);
    assert!(list_package_candidates(&index, "react").is_empty());
    let built = disk(&["/r/b/dist/index.js", "/r/b/src/index.ts"]);
    assert_eq!(resolve_bare_specifier(&index, "@s/b", &built), Some("/r/b/dist/index.js".to_string()));
    let rooted = disk(&["/r/b/index.js", "/r/b/src/index.ts"]);
    assert_eq!(resolve_bare_specifier(&index, "@s/b", &rooted), Some("/r/b/index.js".to_string()));
}
