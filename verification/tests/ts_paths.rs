use depgraph::disk::Disk;
use depgraph::lang::ts_paths::{
    best_match, is_config_file, list_alias_candidates, load, next_configs, resolve, resolve_extends, scan,
    ConfigSource,
};

fn source(path: &str, text: &str) -> ConfigSource {
    ConfigSource { path: path.to_string(), text: Some(text.to_string()) }
}

fn unreadable(path: &str) -> ConfigSource {
    ConfigSource { path: path.to_string(), text: None }
}

fn paths(list: &[(&str, &[&str])]) -> Vec<(String, Vec<String>)> {
    list.iter().map(|(p, t)| (p.to_string(), t.iter().map(|s| s.to_string()).collect())).collect()
}

fn disk(files: &[&str]) -> Disk {
    let mut d = Disk::new();
    for f in files {
        d.record(f.to_string(), Some(f.to_string()));
    }
    d
}

#[test]
fn config_files_are_known_by_name() {
    assert!(is_config_file("/r/tsconfig.json"));
    assert!(is_config_file("jsconfig.json"));
    assert!(!is_config_file("/r/tsconfig.base.json"));
    assert!(!is_config_file("/"));
}

#[test]
fn a_config_is_loaded() {
    let r = load(&vec![source(
        "/r/app/tsconfig.json",
        "{ // options\n \"compilerOptions\": { \"baseUrl\": \"./src\", \"paths\": { \"@/*\": [\"*\", 3, \"gen/*\",], \"bad\": 1, }, }, }",
    )]);
    assert_eq!(r.base_dir, "/r/app/./src");
    assert!(r.has_base_url);
    assert_eq!(r.paths, paths(&[("@/*", &["*", "gen/*"])]));
}

#[test]
fn a_config_without_base_url_keeps_its_directory() {
    let r = load(&vec![source("/r/tsconfig.json", "{\"compilerOptions\": {\"paths\": {\"a\": [\"b\"]}}}")]);
    assert_eq!(r.base_dir, "/r");
    assert!(!r.has_base_url);
    let r = load(&vec![source("tsconfig.json", "{}")]);
    assert_eq!(r.base_dir, "");
    let r = load(&vec![source("/", "{}")]);
    assert_eq!(r.base_dir, ".");
}

#[test]
fn what_cannot_be_read_says_nothing() {
    for c in [unreadable("/r/tsconfig.json"), source("/r/tsconfig.json", "{"), source("/r/tsconfig.json", "[]")] {
        let r = load(&vec![c]);
        assert_eq!(r.base_dir, "/r");
        assert!(!r.has_base_url);
        assert!(r.paths.is_empty());
    }
}

#[test]
fn configs_inherit() {
    let base = "{\"compilerOptions\": {\"baseUrl\": \"src\", \"paths\": {\"x\": [\"y\"]}}}";
    let r = load(&vec![source("/r/app/tsconfig.json", "{\"extends\": \"../base\"}"), source("/r/base.json", base)]);
    assert_eq!(r.base_dir, "/r/src");
    assert!(r.has_base_url);
    assert_eq!(r.paths, paths(&[("x", &["y"])]));
    let r = load(&vec![
        source("/r/app/tsconfig.json", "{\"extends\": \"../base\", \"compilerOptions\": {\"paths\": {\"z\": [\"w\"]}}}"),
        source("/r/base.json", base),
    ]);
    assert_eq!(r.base_dir, "/r/src");
    assert_eq!(r.paths, paths(&[("z", &["w"])]));
    let r = load(&vec![
        source("/r/app/tsconfig.json", "{\"extends\": \"../base\", \"compilerOptions\": {\"baseUrl\": \".\"}}"),
        source("/r/base.json", base),
    ]);
    assert_eq!(r.base_dir, "/r/app/.");
    assert_eq!(r.paths, paths(&[("x", &["y"])]));
    let r = load(&vec![source("/r/app/tsconfig.json", "{\"extends\": \"../gone\"}")]);
    assert_eq!(r.base_dir, "/r/app");
    let r = load(&vec![source("/r/app/tsconfig.json", "{}"), source("/r/base.json", base)]);
    assert_eq!(r.base_dir, "/r/app");
    let r = load(&vec![source("/r/app/tsconfig.json", "{\"extends\": \"../base\"}"), unreadable("/r/base.json")]);
    assert_eq!(r.base_dir, "/r");
}

#[test]
fn a_chain_of_configs_ends() {
    let mut chain = Vec::new();
    for i in 0..11 {
        chain.push(source(&format!("/r/{i}/tsconfig.json"), "{\"extends\": \"./next.json\"}"));
        assert_eq!(next_configs(&chain), [format!("/r/{i}/./next.json")]);
    }
    chain.push(source(
        "/r/11/tsconfig.json",
        "{\"extends\": \"./next.json\", \"compilerOptions\": {\"baseUrl\": \"late\"}}",
    ));
    assert!(next_configs(&chain).is_empty());
    let r = load(&chain);
    assert_eq!(r.base_dir, "/r/11");
    assert!(!r.has_base_url);
    chain.pop();
    chain.pop();
    chain.push(source("/r/10/tsconfig.json", "{\"compilerOptions\": {\"baseUrl\": \"deep\"}}"));
    assert_eq!(load(&chain).base_dir, "/r/10/deep");
    assert!(next_configs(&chain).is_empty());
    assert!(next_configs(&Vec::new()).is_empty());
    assert!(next_configs(&vec![unreadable("/r/tsconfig.json")]).is_empty());
}

#[test]
fn what_is_extended_is_looked_for() {
    assert_eq!(resolve_extends("/r/app", "./base"), ["/r/app/./base", "/r/app/./base.json"]);
    assert_eq!(resolve_extends("/r/app", "./base.json"), ["/r/app/./base.json"]);
    assert_eq!(resolve_extends("/r/app", "/etc/base"), ["/etc/base", "/etc/base.json"]);
    assert_eq!(
        resolve_extends("/r", "@t/cfg"),
        [
            "/r/node_modules/@t/cfg",
            "/r/node_modules/@t/cfg/tsconfig.json",
            "/r/node_modules/@t/cfg.json",
            "/node_modules/@t/cfg",
            "/node_modules/@t/cfg/tsconfig.json",
            "/node_modules/@t/cfg.json",
        ]
    );
    assert_eq!(
        resolve_extends("/", "cfg/base.json"),
        ["/node_modules/cfg/base.json", "/node_modules/cfg/base.json/tsconfig.json"]
    );
}

#[test]
fn the_best_pattern_wins() {
    let list = paths(&[("*", &["any"]), ("@/*", &["at"]), ("@/lib/*", &["lib"]), ("@/lib/x", &["exact"]), ("a*z", &["az"])]);
    let at = |spec: &str| best_match(&list, spec).map(|(t, c)| (t[0].clone(), c));
    assert_eq!(at("@/lib/x"), Some(("exact".to_string(), "".to_string())));
    assert_eq!(at("@/lib/y"), Some(("lib".to_string(), "y".to_string())));
    assert_eq!(at("@/q"), Some(("at".to_string(), "q".to_string())));
    assert_eq!(at("react"), Some(("any".to_string(), "react".to_string())));
    assert_eq!(at("abcz"), Some(("az".to_string(), "bc".to_string())));
    assert_eq!(at("az"), Some(("az".to_string(), "".to_string())));
    assert_eq!(best_match(&paths(&[("aa*aa", &["x"])]), "aaa"), None);
    assert_eq!(best_match(&paths(&[("x", &["y"])]), "z"), None);
    let first = paths(&[("p*", &["one"]), ("p*q", &["two"])]);
    assert_eq!(best_match(&first, "pq").map(|(t, _)| t[0].clone()), Some("one".to_string()));
}

#[test]
fn configs_that_say_nothing_are_left_out() {
    let index = scan(&vec![
        vec![source("/r/tsconfig.json", "{}")],
        vec![source("/r/a/tsconfig.json", "{\"compilerOptions\": {\"baseUrl\": \".\"}}")],
        vec![source("/r/b/other.json", "{\"compilerOptions\": {\"baseUrl\": \".\"}}")],
        vec![],
    ]);
    assert_eq!(index.configs.iter().map(|c| c.dir.as_str()).collect::<Vec<&str>>(), ["/r/a"]);
}

#[test]
fn the_nearest_config_governs() {
    let index = scan(&vec![
        vec![source("/r/a/tsconfig.json", "{\"compilerOptions\": {\"baseUrl\": \"near\"}}")],
        vec![source("/r/tsconfig.json", "{\"compilerOptions\": {\"baseUrl\": \"far\"}}")],
        vec![source("/r/a/jsconfig.json", "{\"compilerOptions\": {\"baseUrl\": \"last\"}}")],
    ]);
    assert_eq!(list_alias_candidates(&index, "/r/a/b", "m")[0], "/r/a/last/m");
    assert_eq!(list_alias_candidates(&index, "/r/ab", "m")[0], "/r/far/m");
    assert!(list_alias_candidates(&index, "/q", "m").is_empty());
}

#[test]
fn aliases_are_resolved() {
    let index = scan(&vec![vec![source(
        "/r/tsconfig.json",
        "{\"compilerOptions\": {\"baseUrl\": \".\", \"paths\": {\"@/*\": [\"gen/*\", \"src/*\"], \"nm\": [\"node_modules/x\"]}}}",
    )]]);
    let d = disk(&["/r/./src/a.ts", "/r/./plain.ts", "/r/./@/b.ts", "/r/./node_modules/x"]);
    assert_eq!(resolve(&index, "/r/src", "@/a", &d), Some("/r/./src/a.ts".to_string()));
    assert_eq!(resolve(&index, "/r/src", "plain", &d), Some("/r/./plain.ts".to_string()));
    assert_eq!(resolve(&index, "/r/src", "@/b", &d), None);
    assert_eq!(resolve(&index, "/r/src", "nm", &d), None);
    assert_eq!(resolve(&index, "/q", "plain", &d), None);
    let no_base = scan(&vec![vec![source("/r/tsconfig.json", "{\"compilerOptions\": {\"paths\": {\"x\": [\"plain\"]}}}")]]);
    let d = disk(&["/r/plain.ts"]);
    assert_eq!(resolve(&no_base, "/r", "x", &d), Some("/r/plain.ts".to_string()));
    assert_eq!(resolve(&no_base, "/r", "plain", &d), None);
}
