use depgraph::disk::{relative_path, Disk};
use depgraph::path::{
    extension_of, extension_removed, file_name_of, joined, lies_under, parent_of, parts_of, stripped,
};
use std::path::Path;

fn samples() -> Vec<&'static str> {
    vec![
        "", "/", "//", ".", "..", "./", "../", "/.", "/..", "a", "a/", "a//", "/a", "/a/", "//a", "a/b", "a//b",
        "a/./b", "./a", "./a/b", "a/.", "a/..", "a/../b", "/a/b/c.ts", "/a/b/c.d.ts", ".ts", "a/.ts", "a.b/c", "a/b.",
        "a/..x", "a/...", "x.json", "x.json/", "dir.x/y", "/a/node_modules/b", "ä/ö.tsx", "a\\b", "/..json", ".a.b",
        "..", "./.", "././a", "/./a", "a/./.", "é", "x.json//", "x.a///", "a/..x/", "..x", "日本/語.py",
    ]
}

fn text(p: Option<&Path>) -> Option<String> {
    p.map(|p| p.to_string_lossy().to_string())
}

#[test]
fn parents_are_those_of_std() {
    for s in samples() {
        assert_eq!(parent_of(s), text(Path::new(s).parent()), "{s:?}");
    }
}

#[test]
fn parts_are_the_components_of_std() {
    for s in samples() {
        let want: Vec<String> =
            Path::new(s).components().map(|c| c.as_os_str().to_string_lossy().to_string()).collect();
        assert_eq!(parts_of(s), want, "{s:?}");
    }
}

#[test]
fn file_names_and_extensions_are_those_of_std() {
    for s in samples() {
        let p = Path::new(s);
        assert_eq!(file_name_of(s), p.file_name().map(|n| n.to_string_lossy().to_string()), "{s:?}");
        assert_eq!(extension_of(s), p.extension().map(|n| n.to_string_lossy().to_string()), "{s:?}");
        assert_eq!(extension_removed(s), p.with_extension("").to_string_lossy().to_string(), "{s:?}");
    }
}

#[test]
fn joining_and_stripping_are_those_of_std() {
    for a in samples() {
        for b in samples() {
            assert_eq!(joined(a, b), Path::new(a).join(b).to_string_lossy().to_string(), "{a:?} {b:?}");
            assert_eq!(lies_under(a, b), Path::new(a).starts_with(b), "{a:?} {b:?}");
            assert_eq!(stripped(a, b), text(Path::new(a).strip_prefix(b).ok()), "{a:?} {b:?}");
        }
    }
}

#[test]
fn a_path_with_an_extension_appended_has_it() {
    assert_eq!(extension_of("out/depgraph.json"), Some("json".to_string()));
    assert_eq!(extension_removed("out/depgraph.json"), "out/depgraph");
    assert_eq!(extension_removed("a/..json"), "a/..");
}

#[test]
fn paths_below_the_root_have_slashes() {
    assert_eq!(relative_path("/r", "/r/a/b.ts"), Some("a/b.ts".to_string()));
    assert_eq!(relative_path("/r", "/r/a\\b.ts"), Some("a/b.ts".to_string()));
    assert_eq!(relative_path("/r", "/r"), Some("".to_string()));
    assert_eq!(relative_path("/r", "/ra/b.ts"), None);
}

#[test]
fn the_first_candidate_that_is_a_file_is_found() {
    let mut disk = Disk::new();
    disk.record("/r/b".to_string(), Some("/r/b".to_string()));
    disk.record("/r/c".to_string(), None);
    let list = |names: &[&str]| names.iter().map(|s| s.to_string()).collect::<Vec<String>>();
    assert_eq!(disk.find(&list(&["/r/a", "/r/b", "/r/c"])), Some("/r/b".to_string()));
    assert_eq!(disk.find(&list(&["/r/c", "/r/b"])), Some("/r/c".to_string()));
    assert_eq!(disk.find(&list(&["/r/a"])), None);
    assert_eq!(disk.canonical("/r/b"), Some("/r/b".to_string()));
    assert_eq!(disk.canonical("/r/c"), None);
    assert!(disk.is_file("/r/c"));
    assert!(!disk.is_file("/r/a"));
    assert_eq!(disk.local("/r", "/r/b"), Some("b".to_string()));
    assert_eq!(disk.local("/q", "/r/b"), None);
    assert_eq!(disk.local("/r", "/r/c"), None);
}
