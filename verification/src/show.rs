//! Finding one file of a graph, its note, and where both are stored.
use vstd::prelude::*;

use crate::model::{node_paths, CtxEntry, CtxStore, Graph};
use crate::order::{ascending, lemma_filter_ascending};
use crate::path::{appended_extension, extension, extension_of, extension_removed, without_extension};
use crate::text::{join2, same, split, split_on, texts, trim_end, trim_start, trimmed_end, trimmed_start, Text};

verus! {

/// The path that the names of output files are made of: without its extension
/// where that is `json`.
pub open spec fn output_stem(base: Text) -> Text {
    if extension(base) == Some("json"@) {
        without_extension(base)
    } else {
        base
    }
}

/// A base with or without `.json` behind it names the same output files.
pub proof fn json_makes_no_difference(base: Text)
    requires
        base.len() > 0,
        base.last() != '/',
        !(base.last() == '.' && (base.len() == 1 || base[base.len() - 2] == '/')),
        extension(base) != Some("json"@),
    ensures
        output_stem(base + ".json"@) == output_stem(base),
{
    reveal_strlit(".json");
    reveal_strlit("json");
    assert(base + ".json"@ =~= base + seq!['.'] + "json"@);
    appended_extension(base, "json"@);
}

/// Where the graph and the notes are stored.
pub fn derive_paths(base: &str) -> (r: (String, String))
    ensures
        r.0@ == output_stem(base@) + ".graph.json"@,
        r.1@ == output_stem(base@) + ".ctx.json"@,
{
    let is_json = match extension_of(base) {
        Some(ext) => same(ext.as_str(), "json"),
        None => false,
    };
    let stem = if is_json {
        extension_removed(base)
    } else {
        base.to_owned()
    };
    (join2(stem.as_str(), ".graph.json"), join2(stem.as_str(), ".ctx.json"))
}

/// The parts of a query: what stands between slashes, but for those that it
/// starts and ends with.
pub open spec fn query_parts(query: Text) -> Seq<Text> {
    split(trim_end(trim_start(query, '/'), '/'), '/')
}

/// Whether a query means a path: it is the path, or its parts are the last
/// parts of the path.
pub open spec fn means(query: Text, path: Text) -> bool {
    path == query || query_parts(query).is_suffix_of(split(path, '/'))
}

/// Holds for the paths that a query means.
pub open spec fn meant_by(query: Text) -> spec_fn(Text) -> bool {
    |path: Text| means(query, path)
}

/// The paths that a query means.
pub open spec fn meant(paths: Seq<Text>, query: Text) -> Seq<Text> {
    paths.filter(meant_by(query))
}

/// Why a query selects no file.
#[derive(Debug)]
pub enum SelectError {
    /// It means none.
    NoMatch,
    /// It means all of these.
    Ambiguous(Vec<String>),
}

/// The path that a query selects: the one path that it means, or of several
/// the one that is the query itself.
pub open spec fn selected(paths: Seq<Text>, query: Text) -> Option<Text> {
    let found = meant(paths, query);
    if found.len() == 1 {
        Some(found[0])
    } else if found.len() > 1 && paths.contains(query) {
        Some(query)
    } else {
        None
    }
}

/// A full path always selects its file.
pub proof fn full_path_selects(paths: Seq<Text>, query: Text)
    requires
        paths.contains(query),
    ensures
        selected(paths, query) == Some(query),
{
    let f = meant_by(query);
    let i = choose|i: int| 0 <= i < paths.len() && paths[i] == query;
    paths.lemma_filter_contains(f, i);
    let found = meant(paths, query);
    assert(found.contains(query));
    if found.len() == 1 {
        let k = choose|k: int| 0 <= k < found.len() && found[k] == query;
        assert(k == 0);
    }
}

/// What a query selects is one of the paths, and the query means it.
pub proof fn selected_is_meant(paths: Seq<Text>, query: Text)
    ensures
        selected(paths, query) is Some ==> paths.contains(selected(paths, query)->0) && means(
            query,
            selected(paths, query)->0,
        ),
{
    let f = meant_by(query);
    let found = meant(paths, query);
    if found.len() == 1 {
        paths.lemma_filter_pred(f, 0);
        assert(found.contains(found[0]));
        paths.lemma_filter_contains_rev(f, found[0]);
    }
}

/// A query that is the last parts of one path alone selects that path.
pub proof fn unique_suffix_selects(paths: Seq<Text>, query: Text, at: int)
    requires
        0 <= at < paths.len(),
        means(query, paths[at]),
        forall|i: int| 0 <= i < paths.len() && i != at ==> !means(query, #[trigger] paths[i]),
    ensures
        selected(paths, query) == Some(paths[at]),
{
    let f = meant_by(query);
    lemma_filter_one(paths, f, at);
}

proof fn lemma_filter_one(list: Seq<Text>, f: spec_fn(Text) -> bool, at: int)
    requires
        0 <= at < list.len(),
        f(list[at]),
        forall|i: int| 0 <= i < list.len() && i != at ==> !f(#[trigger] list[i]),
    ensures
        list.filter(f) == seq![list[at]],
    decreases list.len(),
{
    let front = list.drop_last();
    assert(list =~= front.push(list.last()));
    front.lemma_filter_push(list.last(), f);
    assert forall|i: int| 0 <= i < front.len() implies #[trigger] front[i] == list[i] by {}
    if at == list.len() - 1 {
        lemma_filter_none(front, f);
        assert(front.filter(f).push(list.last()) =~= seq![list[at]]);
    } else {
        lemma_filter_one(front, f, at);
        assert(!f(list[list.len() - 1]));
    }
}

proof fn lemma_filter_none(list: Seq<Text>, f: spec_fn(Text) -> bool)
    requires
        forall|i: int| 0 <= i < list.len() ==> !f(#[trigger] list[i]),
    ensures
        list.filter(f) == Seq::<Text>::empty(),
    decreases list.len(),
{
    reveal(Seq::filter);
    if list.len() > 0 {
        let front = list.drop_last();
        assert forall|i: int| 0 <= i < front.len() implies #[trigger] front[i] == list[i] by {}
        lemma_filter_none(front, f);
        assert(!f(list[list.len() - 1]));
    }
}

/// Whether the strings of `a` are the last strings of `b`.
fn ends_with(a: &Vec<String>, b: &Vec<String>) -> (r: bool)
    ensures
        r == texts(a@).is_suffix_of(texts(b@)),
{
    if a.len() > b.len() {
        return false;
    }
    let from: usize = b.len() - a.len();
    let n = b.len();
    let ghost x = texts(a@);
    let ghost y = texts(b@);
    let mut i: usize = 0;
    while i < a.len()
        invariant
            i <= a@.len(),
            from + a@.len() == b@.len() == n,
            x == texts(a@),
            y == texts(b@),
            forall|k: int| 0 <= k < i ==> #[trigger] x[k] == y[from + k],
        decreases a@.len() - i,
    {
        if !same(a[i].as_str(), b[from + i].as_str()) {
            assert(x[i as int] != y[from + i]);
            assert(y.subrange(from as int, y.len() as int)[i as int] == y[from + i]);
            return false;
        }
        assert(x[i as int] == y[from + i]);
        i = i + 1;
    }
    assert(x =~= y.subrange(from as int, y.len() as int));
    true
}

/// The place of the file that a query selects.
pub fn select(graph: &Graph, query: &str) -> (r: Result<usize, SelectError>)
    ensures
        match r {
            Ok(at) => at < graph.nodes@.len() && selected(node_paths(graph.nodes@), query@) == Some(
                graph.nodes@[at as int].0@,
            ),
            Err(SelectError::NoMatch) => meant(node_paths(graph.nodes@), query@).len() == 0,
            Err(SelectError::Ambiguous(list)) => {
                &&& selected(node_paths(graph.nodes@), query@) is None
                &&& list@.len() > 1
                &&& texts(list@) == meant(node_paths(graph.nodes@), query@)
            },
        },
{
    let ghost all = node_paths(graph.nodes@);
    let ghost f = meant_by(query@);
    let front = trimmed_start(query, '/');
    let parts = split_on(trimmed_end(front.as_str(), '/').as_str(), '/');
    let mut list: Vec<String> = Vec::new();
    let mut first: usize = 0;
    let mut exact: Option<usize> = None;
    let mut i: usize = 0;
    assert(texts(list@) =~= all.take(0).filter(f)) by {
        reveal(Seq::filter);
    }
    while i < graph.nodes.len()
        invariant
            i <= graph.nodes@.len(),
            all == node_paths(graph.nodes@),
            f == meant_by(query@),
            texts(parts@) == query_parts(query@),
            texts(list@) == all.take(i as int).filter(f),
            list@.len() > 0 ==> first < i && all[first as int] == list@[0]@,
            match exact {
                Some(k) => k < i && all[k as int] == query@,
                None => forall|k: int| 0 <= k < i ==> #[trigger] all[k] != query@,
            },
        decreases graph.nodes@.len() - i,
    {
        let ghost was = texts(list@);
        assert(all[i as int] == graph.nodes@[i as int].0@);
        assert(all.take(i + 1) =~= all.take(i as int).push(all[i as int]));
        proof {
            all.take(i as int).lemma_filter_push(all[i as int], f);
        }
        let path = graph.nodes[i].0.as_str();
        let is_query = same(path, query);
        if is_query {
            exact = Some(i);
        }
        let pieces = split_on(path, '/');
        if is_query || ends_with(&parts, &pieces) {
            if list.len() == 0 {
                first = i;
            }
            list.push(graph.nodes[i].0.clone());
            assert(texts(list@) =~= was.push(all[i as int]));
            assert(texts(list@)[0] == list@[0]@);
        }
        i = i + 1;
    }
    assert(all.take(all.len() as int) =~= all);
    assert(texts(list@).len() == list@.len());
    if list.len() == 0 {
        return Err(SelectError::NoMatch);
    }
    if list.len() == 1 {
        assert(texts(list@)[0] == list@[0]@);
        return Ok(first);
    }
    match exact {
        Some(k) => {
            assert(all.contains(query@));
            Ok(k)
        },
        None => Err(SelectError::Ambiguous(list)),
    }
}

/// The files that an ambiguous query means are listed in order.
pub proof fn ambiguous_in_order(graph: Graph, query: Text)
    requires
        graph.wf(),
    ensures
        ascending(meant(node_paths(graph.nodes@), query)),
{
    lemma_filter_ascending(node_paths(graph.nodes@), meant_by(query));
}

/// The note on a file: the first that stands under its path.
pub open spec fn note_of(notes: Seq<(String, CtxEntry)>, path: Text) -> Option<CtxEntry>
    decreases notes.len(),
{
    if notes.len() == 0 {
        None
    } else if notes[0].0@ == path {
        Some(notes[0].1)
    } else {
        note_of(notes.skip(1), path)
    }
}

/// The text of the note on a file, and whether the file has changed since. A
/// file without a note has an empty one that is not stale.
pub fn find_note(notes: &CtxStore, path: &str, hash: &str) -> (r: (String, bool))
    ensures
        match note_of(notes@, path@) {
            Some(entry) => r.0@ == entry.ctx@ && r.1 == (entry.ctx_hash@ != hash@),
            None => r.0@ == Seq::<char>::empty() && !r.1,
        },
{
    let ghost all = notes@;
    let mut i: usize = 0;
    assert(all.skip(0) =~= all);
    while i < notes.len()
        invariant
            i <= notes@.len(),
            all == notes@,
            note_of(all, path@) == note_of(all.skip(i as int), path@),
        decreases notes@.len() - i,
    {
        assert(all.skip(i as int)[0] == all[i as int]);
        assert(all.skip(i as int).skip(1) =~= all.skip(i + 1));
        if same(notes[i].0.as_str(), path) {
            let entry = &notes[i].1;
            return (entry.ctx.clone(), !same(entry.ctx_hash.as_str(), hash));
        }
        i = i + 1;
    }
    (String::new(), false)
}

/// What is shown of a file: its place in the graph, its note, and whether the
/// note is stale.
pub struct Shown {
    pub at: usize,
    pub ctx: String,
    pub ctx_stale: bool,
}

/// What is shown of the file that a query selects.
pub fn show(graph: &Graph, notes: &CtxStore, query: &str) -> (r: Result<Shown, SelectError>)
    ensures
        match r {
            Ok(shown) => {
                &&& shown.at < graph.nodes@.len()
                &&& selected(node_paths(graph.nodes@), query@) == Some(
                    graph.nodes@[shown.at as int].0@,
                )
                &&& match note_of(notes@, graph.nodes@[shown.at as int].0@) {
                    Some(entry) => shown.ctx@ == entry.ctx@ && shown.ctx_stale == (entry.ctx_hash@
                        != graph.nodes@[shown.at as int].1.hash@),
                    None => shown.ctx@ == Seq::<char>::empty() && !shown.ctx_stale,
                }
            },
            Err(SelectError::NoMatch) => meant(node_paths(graph.nodes@), query@).len() == 0,
            Err(SelectError::Ambiguous(list)) => {
                &&& selected(node_paths(graph.nodes@), query@) is None
                &&& list@.len() > 1
                &&& texts(list@) == meant(node_paths(graph.nodes@), query@)
            },
        },
{
    match select(graph, query) {
        Ok(at) => {
            let (path, node) = &graph.nodes[at];
            let (ctx, ctx_stale) = find_note(notes, path.as_str(), node.hash.as_str());
            Ok(Shown { at, ctx, ctx_stale })
        },
        Err(e) => Err(e),
    }
}

} // verus!
