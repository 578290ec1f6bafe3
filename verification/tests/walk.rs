use depgraph::excludes::{build_excludes, fill_excludes, finish_excludes, is_excluded, ExcludeError};
use depgraph::walk::{collect_source_files, detect_lang, skips_configs, skips_dir, Lang};

fn strings(list: &[&str]) -> Vec<String> {
    list.iter().map(|s| s.to_string()).collect()
}

fn rels(root: &str, paths: &[&str], patterns: &[&str]) -> Vec<String> {
    let set = build_excludes(&strings(patterns)).unwrap();
    collect_source_files(root, &strings(paths), &set).into_iter().map(|f| f.rel_path).collect()
}

#[test]
fn languages_by_extension() {
    assert_eq!(detect_lang("/a/b.java"), Some(Lang::Java));
    assert_eq!(detect_lang("/a/b.PY"), Some(Lang::Python));
    assert_eq!(detect_lang("b.pyi"), Some(Lang::Python));
    for ext in ["js", "jsx", "mjs", "Cjs"] {
        assert_eq!(detect_lang(&format!("b.{ext}")), Some(Lang::JavaScript));
    }
    for ext in ["ts", "mts", "cts", "TSX"] {
        assert_eq!(detect_lang(&format!("b.d.{ext}")), Some(Lang::TypeScript));
    }
    for path in ["b.rs", ".ts", "ts", "b.json", "", "a.ts/"] {
        assert_eq!(detect_lang(path), if path == "a.ts/" { Some(Lang::TypeScript) } else { None }, "{path}");
    }
}

#[test]
fn directories_are_skipped() {
    for name in [
        ".git", "node_modules", "dist", "build", "out", "target", ".next", ".nuxt", "__pycache__", ".venv", "venv",
        "env", ".mypy_cache", ".pytest_cache", ".tox", "coverage", "vendor", ".idea", ".vscode", ".gradle",
        ".settings",
    ] {
        assert!(skips_dir(name), "{name}");
    }
    assert!(!skips_dir("src"));
    assert!(!skips_dir("Build"));
    assert!(skips_configs(".git") && skips_configs("node_modules"));
    assert!(!skips_configs("dist"));
}

#[test]
fn source_files_are_collected_in_order() {
    let paths = ["/r/b.ts", "/r/a/z.py", "/r/a.ts", "/r/notes.md", "/r/a/B.java", "/elsewhere/x.js", "/r/a\\q.ts"];
    assert_eq!(rels("/r", &paths, &[]), ["/elsewhere/x.js", "a.ts", "a/B.java", "a/q.ts", "a/z.py", "b.ts"]);
    let set = build_excludes(&[]).unwrap();
    let files = collect_source_files("/r", &strings(&paths), &set);
    assert_eq!(files[1].abs_path, "/r/a.ts");
    assert_eq!(files[2].lang, Lang::Java);
    assert_eq!(files[4].lang, Lang::Python);
}

#[test]
fn files_with_the_same_path_keep_their_order() {
    let set = build_excludes(&[]).unwrap();
    let files = collect_source_files("/r", &strings(&["/r/x/z.ts", "/r/a\\b.ts", "/r/a/b.ts"]), &set);
    let abs: Vec<&str> = files.iter().map(|f| f.abs_path.as_str()).collect();
    assert_eq!(abs, ["/r/a\\b.ts", "/r/a/b.ts", "/r/x/z.ts"]);
}

#[test]
fn what_lies_in_skipped_directories_is_left_out() {
    let paths = ["/r/node_modules/x.js", "/r/a/dist/b.ts", "/r/a/dist.ts", "/r/dist.py", "/r/src/env/x.py"];
    assert_eq!(rels("/r", &paths, &[]), ["a/dist.ts", "dist.py"]);
    assert_eq!(rels("/build", &["/build/x.ts"], &[]), ["x.ts"]);
}

#[test]
fn a_backslash_separates_no_directories() {
    let paths = ["/r/a\\build\\x.ts", "/r/node_modules\\y.js", "/r/dist\\z/w.py", "/r/dist/v\\u.py"];
    assert_eq!(rels("/r", &paths, &[]), ["a/build/x.ts", "dist/z/w.py", "node_modules/y.js"]);
    assert_eq!(rels("/r", &paths, &["a/build"]), ["dist/z/w.py", "node_modules/y.js"]);
}

#[test]
fn excluded_files_are_left_out() {
    let paths = ["/r/a.test.ts", "/r/src/b.test.ts", "/r/src/b.ts", "/r/legacy/deep/x.py", "/r/keep/legacy.py"];
    assert_eq!(rels("/r", &paths, &["**/*.test.ts", "legacy/**"]), ["keep/legacy.py", "src/b.ts"]);
    assert_eq!(rels("/r", &paths, &["legacy"]), ["a.test.ts", "keep/legacy.py", "src/b.test.ts", "src/b.ts"]);
    assert_eq!(rels("/r", &paths, &["src"]), ["a.test.ts", "keep/legacy.py", "legacy/deep/x.py"]);
}

#[test]
fn a_directory_takes_its_files_along() {
    let set = build_excludes(&strings(&["a/b"])).unwrap();
    assert!(is_excluded(&set, "a/b"));
    assert!(is_excluded(&set, "a/b/c/d.ts"));
    assert!(!is_excluded(&set, "a/bc.ts"));
    assert!(!is_excluded(&set, ""));
    let none = build_excludes(&[]).unwrap();
    assert!(!is_excluded(&none, "a/b"));
}

#[test]
fn patterns_that_are_none_are_refused() {
    match build_excludes(&strings(&["*.ts", "a[", "{b"])) {
        Err(ExcludeError::Invalid { pattern, reason }) => {
            assert_eq!(pattern, "a[");
            assert_eq!(reason, globset::Glob::new("a[").unwrap_err().to_string());
        }
        _ => panic!("accepted"),
    }
}

#[test]
fn patterns_that_take_too_much_are_refused() {
    match build_excludes(&["?".repeat(600_000)]) {
        Err(ExcludeError::Unbuildable { reason }) => assert!(!reason.is_empty()),
        _ => panic!("accepted"),
    }
}

#[test]
fn literals_always_make_a_set() {
    let long = "x".repeat(2_000_000);
    let many: Vec<String> = (0..20_000).map(|i| format!("dir-{i}/a,b]!.ts")).collect();
    let set = build_excludes(&[long.clone()]).unwrap();
    assert!(is_excluded(&set, &long) && !is_excluded(&set, "x"));
    let set = build_excludes(&many).unwrap();
    assert!(is_excluded(&set, "dir-19999/a,b]!.ts") && !is_excluded(&set, "dir-20000/a,b]!.ts"));
}

#[test]
fn excludes_are_filled_and_finished() {
    let builder = fill_excludes(&strings(&["a/b", "*.js"])).unwrap();
    let set = finish_excludes(builder.build()).unwrap();
    assert!(is_excluded(&set, "a/b/c.ts") && is_excluded(&set, "x.js") && !is_excluded(&set, "a/c.ts"));
    match fill_excludes(&strings(&["ok", "b[", "c["])) {
        Err(ExcludeError::Invalid { pattern, reason }) => {
            assert_eq!(pattern, "b[");
            assert_eq!(reason, globset::Glob::new("b[").unwrap_err().to_string());
        }
        _ => panic!("refused otherwise"),
    }
    let e = globset::Glob::new("{x").unwrap_err();
    let said = e.to_string();
    match finish_excludes(Err(e)) {
        Err(ExcludeError::Unbuildable { reason }) => assert_eq!(reason, said),
        _ => panic!("built otherwise"),
    }
}
