use depgraph::model::{CtxEntry, CtxStore, Graph, Node};
use depgraph::show::{derive_paths, find_note, select, show, SelectError};

fn node(hash: &str) -> Node {
    Node {
        hash: hash.to_string(),
        is_barrel: None,
        exports: vec![],
        dependencies: vec![],
        dependents: vec![],
        effective_dependencies: None,
        effective_dependents: None,
        external_dependencies: None,
    }
}

fn graph(paths: &[&str]) -> Graph {
    Graph {
        root: "/r".to_string(),
        generated_at: "".to_string(),
        nodes: paths.iter().map(|p| (p.to_string(), node("h"))).collect(),
    }
}

fn note(ctx: &str, hash: &str) -> CtxEntry {
    CtxEntry { ctx: ctx.to_string(), ctx_hash: hash.to_string() }
}

fn picked(g: &Graph, query: &str) -> Option<String> {
    select(g, query).ok().map(|at| g.nodes[at].0.clone())
}

#[test]
fn output_files_have_the_base_as_their_stem() {
    let want = ("out/depgraph.graph.json".to_string(), "out/depgraph.ctx.json".to_string());
    assert_eq!(derive_paths("out/depgraph"), want);
    assert_eq!(derive_paths("out/depgraph.json"), want);
    assert_eq!(derive_paths("a.txt").0, "a.txt.graph.json");
    assert_eq!(derive_paths("a.json.json").0, "a.json.graph.json");
    assert_eq!(derive_paths(".json").1, ".json.ctx.json");
    assert_eq!(derive_paths("x.JSON").0, "x.JSON.graph.json");
}

#[test]
fn files_are_selected_by_path_or_suffix() {
    let g = graph(&["components/Button.tsx", "index.ts", "lib/index.ts", "pages/Button.tsx", "src/app.ts"]);
    assert_eq!(picked(&g, "src/app.ts"), Some("src/app.ts".to_string()));
    assert_eq!(picked(&g, "app.ts"), Some("src/app.ts".to_string()));
    assert_eq!(picked(&g, "/src/app.ts/"), Some("src/app.ts".to_string()));
    assert_eq!(picked(&g, "components/Button.tsx"), Some("components/Button.tsx".to_string()));
    assert_eq!(picked(&g, "lib/index.ts"), Some("lib/index.ts".to_string()));
    assert_eq!(picked(&g, "index.ts"), Some("index.ts".to_string()));
    assert_eq!(picked(&g, "pp.ts"), None);
}

#[test]
fn a_query_that_means_no_file_is_refused() {
    let g = graph(&["a.ts"]);
    assert!(matches!(select(&g, "b.ts"), Err(SelectError::NoMatch)));
    assert!(matches!(select(&g, ""), Err(SelectError::NoMatch)));
    assert!(matches!(select(&g, "x/a.ts"), Err(SelectError::NoMatch)));
}

#[test]
fn an_ambiguous_query_lists_the_files() {
    let g = graph(&["components/Button.tsx", "pages/Button.tsx", "src/app.ts"]);
    match select(&g, "Button.tsx") {
        Err(SelectError::Ambiguous(list)) => assert_eq!(list, ["components/Button.tsx", "pages/Button.tsx"]),
        _ => panic!("not ambiguous"),
    }
}

#[test]
fn notes_are_fresh_or_stale() {
    let notes: CtxStore = vec![("a.ts".to_string(), note("does a", "h1")), ("b.ts".to_string(), note("does b", "h2"))];
    assert_eq!(find_note(&notes, "a.ts", "h1"), ("does a".to_string(), false));
    assert_eq!(find_note(&notes, "b.ts", "h1"), ("does b".to_string(), true));
    assert_eq!(find_note(&notes, "c.ts", "h1"), ("".to_string(), false));
}

#[test]
fn a_file_is_shown_with_its_note() {
    let g = graph(&["a.ts", "src/b.ts"]);
    let notes: CtxStore = vec![("src/b.ts".to_string(), note("old", "other"))];
    let shown = show(&g, &notes, "b.ts").ok().unwrap();
    assert_eq!((shown.at, shown.ctx.as_str(), shown.ctx_stale), (1, "old", true));
    let shown = show(&g, &notes, "a.ts").ok().unwrap();
    assert_eq!((shown.at, shown.ctx.as_str(), shown.ctx_stale), (0, "", false));
    assert!(show(&g, &notes, "c.ts").is_err());
}
