use depgraph::facts::{DepRef, FileFacts};
use depgraph::lang::java::{resolve, scan_header, scan_imports, FileHeader, JavaIndex, RawImport};
use depgraph::syntax::{parse, Grammar, SyntaxTree};

fn tree(src: &str) -> SyntaxTree {
    parse(Grammar::Java, src).unwrap().unwrap()
}

fn header(package: &str, types: &[&str]) -> FileHeader {
    FileHeader { package: package.to_string(), types: types.iter().map(|t| t.to_string()).collect() }
}

fn import(path: &str, is_static: bool, is_wildcard: bool) -> RawImport {
    RawImport { path: path.to_string(), is_static, is_wildcard }
}

fn targets(facts: &FileFacts) -> Vec<String> {
    facts
        .dependencies
        .iter()
        .map(|d| match &d.target {
            DepRef::Internal(p) => format!("in:{p}"),
            DepRef::External(s) => format!("out:{s}"),
        })
        .collect()
}

fn index() -> JavaIndex {
    let mut index = JavaIndex::default();
    index.add("a/A.java", &header("a", &["A", "Helper"]));
    index.add("a/B.java", &header("a", &["B"]));
    index.add("Root.java", &header("", &["Root"]));
    index
}

#[test]
fn headers_are_scanned() {
    let src = "package com . acme.app;\nimport x.Y;\npublic class App { class Inner {} }\ninterface I {}\nenum E { A }\nrecord R(int a) {}\n@interface Ann {}\n";
    let h = scan_header(&tree(src), src);
    assert_eq!(h.package, "com.acme.app");
    assert_eq!(h.types, ["App", "I", "E", "R", "Ann"]);
    let src = "package single;\n";
    assert_eq!(scan_header(&tree(src), src).package, "single");
    let src = "class A {}\n";
    assert_eq!(scan_header(&tree(src), src).package, "");
}

#[test]
fn imports_are_scanned() {
    let src = "import java.util.*;\nimport static com.acme.Util.help;\nimport static com.acme.Util.*;\nimport com.acme.Other;\nimport Lone;\n";
    let found: Vec<(String, bool, bool)> = scan_imports(&tree(src), src)
        .into_iter()
        .map(|i| (i.path, i.is_static, i.is_wildcard))
        .collect();
    let want = |p: &str, s: bool, w: bool| (p.to_string(), s, w);
    assert_eq!(
        found,
        vec![
            want("java.util", false, true),
            want("com.acme.Util.help", true, false),
            want("com.acme.Util", true, true),
            want("com.acme.Other", false, false),
            want("Lone", false, false),
        ]
    );
}

#[test]
fn the_index_holds_types_and_packages() {
    let index = index();
    assert_eq!(index.type_index.get("a.A"), Some(&"a/A.java".to_string()));
    assert_eq!(index.type_index.get("a.Helper"), Some(&"a/A.java".to_string()));
    assert_eq!(index.type_index.get("Root"), Some(&"Root.java".to_string()));
    assert_eq!(index.type_index.get("A"), None);
    assert_eq!(index.package_index.get("a"), Some(&vec!["a/A.java".to_string(), "a/B.java".to_string()]));
    assert_eq!(index.package_index.get(""), Some(&vec!["Root.java".to_string()]));
}

#[test]
fn a_later_file_takes_a_type_over() {
    let mut index = index();
    index.add("dup/A.java", &header("a", &["A"]));
    assert_eq!(index.type_index.get("a.A"), Some(&"dup/A.java".to_string()));
    assert_eq!(index.package_index.get("a").map(|f| f.len()), Some(3));
}

#[test]
fn java_imports_are_resolved() {
    let index = index();
    let at = |i: RawImport, rel: &str| targets(&resolve(&[i], &[], rel, &index));
    assert_eq!(at(import("a.A", false, false), "x"), ["in:a/A.java"]);
    assert_eq!(at(import("a.Z", false, false), "x"), ["out:a.Z"]);
    assert_eq!(at(import("a", false, true), "x"), ["in:a/A.java", "in:a/B.java"]);
    assert_eq!(at(import("a", false, true), "a/B.java"), ["in:a/A.java"]);
    assert_eq!(at(import("", false, true), "Root.java"), ["out:.*"]);
    assert_eq!(at(import("java.util", false, true), "x"), ["out:java.util.*"]);
    assert_eq!(at(import("a.A", true, true), "x"), ["in:a/A.java"]);
    assert_eq!(at(import("a.Z", true, true), "x"), ["out:a.Z.*"]);
    assert_eq!(at(import("a.A.member", true, false), "x"), ["in:a/A.java"]);
    assert_eq!(at(import("a.A", true, false), "x"), ["in:a/A.java"]);
    assert_eq!(at(import("a.Z.member", true, false), "x"), ["out:a.Z.member"]);
    assert_eq!(at(import("Root", true, false), "x"), ["in:Root.java"]);
}

#[test]
fn java_files_export_their_types() {
    let index = index();
    let facts = resolve(&[], &["A".to_string(), "B".to_string()], "x", &index);
    assert_eq!(facts.exports, ["A", "B"]);
    assert!(facts.has_local_exports);
    assert!(!facts.has_reexports);
    assert!(!resolve(&[], &[], "x", &index).has_local_exports);
}
