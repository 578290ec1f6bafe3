use depgraph::disk::Disk;
use depgraph::facts::{DepRef, FileFacts, ImportWant};
use depgraph::lang::python::{
    analyze, list_probes, resolve_absolute_module, resolve_base_dir, resolve_relative_base_dir, resolve_submodule,
    scan, PyImport,
};
use depgraph::syntax::{parse, Grammar, SyntaxTree};

fn tree(src: &str) -> SyntaxTree {
    parse(Grammar::Python, src).unwrap().unwrap()
}

fn disk(files: &[&str]) -> Disk {
    let mut d = Disk::new();
    for f in files {
        d.record(f.to_string(), Some(f.to_string()));
    }
    d
}

fn show(d: &DepRef) -> String {
    match d {
        DepRef::Internal(p) => format!("in:{p}"),
        DepRef::External(s) => format!("out:{s}"),
    }
}

fn targets(facts: &FileFacts) -> Vec<String> {
    assert!(facts.dependencies.iter().all(|d| matches!(d.want, ImportWant::All)));
    let mut list: Vec<String> = facts.dependencies.iter().map(|d| show(&d.target)).collect();
    list.sort();
    list
}

#[test]
fn imports_are_found_anywhere() {
    let src = "import os, a.b as c\nfrom ..p import (y as z, w)\nfrom m import *\ndef f():\n    import lazy\ntry:\n    from . import opt\nexcept ImportError:\n    pass\n";
    let m = scan(&tree(src), src);
    let mut found: Vec<String> = m
        .imports
        .iter()
        .map(|i| match i {
            PyImport::Module(m) => format!("import {m}"),
            PyImport::From { module, relative, names } => format!("from {module} {relative} {}", names.join(",")),
        })
        .collect();
    found.sort();
    assert_eq!(
        found,
        ["from . true opt", "from ..p true y,w", "from m false ", "import a.b", "import lazy", "import os"]
    );
    assert!(m.imports_at_top);
}

#[test]
fn the_top_level_is_public() {
    let src = "X = 1\n_y = 2\nz: int = 3\ndef f():\n    inner = 1\nclass C:\n    attr = 1\na, b = 1, 2\n_g = lambda: 0\ndef _h(): pass\n";
    let m = scan(&tree(src), src);
    assert_eq!(m.exports, ["X", "z", "f", "C", "_h", "*"]);
    assert!(m.names_exports);
    assert!(!m.imports_at_top);
}

#[test]
fn all_lists_what_is_public() {
    let src = "__all__ = ['one', \"two\"]\nX = 1\n";
    assert_eq!(scan(&tree(src), src).exports, ["one", "two"]);
    let src = "__all__ = ('one',)\n__all__ = ['last']\n";
    assert_eq!(scan(&tree(src), src).exports, ["last"]);
    let src = "__all__ = names\nX = 1\n";
    assert!(scan(&tree(src), src).exports.is_empty());
    let src = "__all__ = []\nX = 1\n";
    assert!(scan(&tree(src), src).exports.is_empty());
    assert!(!scan(&tree(src), src).names_exports);
}

#[test]
fn without_all_the_names_are_open() {
    let src = "from .x import y\n";
    let m = scan(&tree(src), src);
    assert_eq!(m.exports, ["*"]);
    assert!(!m.names_exports);
    let src = "V = 1\n";
    let m = scan(&tree(src), src);
    assert_eq!(m.exports, ["V", "*"]);
    assert!(m.names_exports);
}

#[test]
fn relative_modules_lie_above_and_below() {
    let at = |spec: &str| resolve_relative_base_dir("/r/a/b", spec);
    assert_eq!(at("."), Some("/r/a/b".to_string()));
    assert_eq!(at(".x.y"), Some("/r/a/b/x/y".to_string()));
    assert_eq!(at("..x"), Some("/r/a/x".to_string()));
    assert_eq!(at("...."), Some("/".to_string()));
    assert_eq!(at("....."), None);
    assert_eq!(at("x"), None);
    assert_eq!(at(""), None);
}

#[test]
fn modules_are_packages_or_files() {
    let d = disk(&["/r/a/__init__.py", "/r/a.py", "/r/b.py", "/r/a/c.py", "/r/a/d/__init__.py"]);
    assert_eq!(resolve_base_dir("/r", "/r/a", &d), Some("a/__init__.py".to_string()));
    assert_eq!(resolve_base_dir("/r", "/r/b", &d), Some("b.py".to_string()));
    assert_eq!(resolve_base_dir("/r", "/r/c", &d), None);
    assert_eq!(resolve_submodule("/r", "/r/a", "c", &d), Some("a/c.py".to_string()));
    assert_eq!(resolve_submodule("/r", "/r/a", "d", &d), Some("a/d/__init__.py".to_string()));
    assert_eq!(resolve_submodule("/r", "/r/a", "e", &d), None);
    assert_eq!(show(&resolve_absolute_module("/r", "a.c", &d)), "in:a/c.py");
    assert_eq!(show(&resolve_absolute_module("/r", "os.path", &d)), "out:os.path");
    let mut linked = Disk::new();
    linked.record("/r/a/__init__.py".to_string(), Some("/else/a.py".to_string()));
    linked.record("/r/a.py".to_string(), Some("/r/a.py".to_string()));
    assert_eq!(resolve_base_dir("/r", "/r/a", &linked), None);
}

#[test]
fn a_module_is_linked() {
    let src = "import a.c\nimport os\nfrom .x import y, z\nfrom a import d, K\nfrom ....... import far\nfrom n import *\nfrom q import r\nfrom . import lone\n";
    let d = disk(&["/r/a/c.py", "/r/a/__init__.py", "/r/a/d.py", "/r/p/x/y.py", "/r/p/x.py", "/r/n.py"]);
    let facts = analyze(&tree(src), src, "/r", "/r/p", "p/m.py", &d);
    assert_eq!(
        targets(&facts),
        [
            "in:a/__init__.py",
            "in:a/c.py",
            "in:a/d.py",
            "in:n.py",
            "in:p/x.py",
            "in:p/x/y.py",
            "out:.......",
            "out:..lone",
            "out:os",
            "out:q.r",
        ]
    );
    assert!(!facts.has_reexports);
    assert!(!facts.has_local_exports);
    assert!(facts.name_sources.is_empty() && facts.wildcard_fallbacks.is_empty());
}

#[test]
fn only_an_init_file_reexports() {
    let src = "from .x import y\n";
    let d = Disk::new();
    let of = |rel: &str, src: &str| analyze(&tree(src), src, "/r", "/r/p", rel, &d);
    assert!(of("p/__init__.py", src).has_reexports);
    assert!(of("__init__.py", src).has_reexports);
    assert!(!of("p/x.py", src).has_reexports);
    assert!(!of("p/__init__.py", "def f():\n    import x\n").has_reexports);
    assert!(!of("p/__init__.py", src).has_local_exports);
    let own = of("p/__init__.py", "from .x import y\nV = 1\n");
    assert!(own.has_reexports && own.has_local_exports);
}

#[test]
fn python_asks_for_its_probes_only() {
    let src = "import a\nfrom .b import c\n";
    let t = tree(src);
    let probes = list_probes(&scan(&t, src), "/r", "/r/p");
    for p in ["/r/a/__init__.py", "/r/a.py", "/r/p/b/__init__.py", "/r/p/b.py", "/r/p/b/c.py", "/r/p/b/c/__init__.py"] {
        assert!(probes.contains(&p.to_string()), "{p}");
    }
    assert_eq!(probes.len(), 6);
    let mut known = disk(&["/r/p/b.py", "/r/a.py"]);
    let one = analyze(&t, src, "/r", "/r/p", "p/m.py", &known);
    known.record("/r/p/unrelated.py".to_string(), None);
    let two = analyze(&t, src, "/r", "/r/p", "p/m.py", &known);
    assert_eq!(targets(&one), targets(&two));
    assert_eq!(targets(&one), ["in:a.py", "in:p/b.py"]);
}
