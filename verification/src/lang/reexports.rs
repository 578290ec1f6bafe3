//! What holds of every script.
use vstd::prelude::*;
use vstd::seq_lib::seq_to_set_is_finite;

use crate::facts::Wanted;
use crate::lang::js_ts::{
    after_node, after_nodes, after_reexport, clause_pairs, export_source, script_of, ScriptView,
};
use crate::order::{ascending, lemma_in_order_lists};
use crate::syntax::{visits, NodeView};
use crate::text::Text;
use crate::tsutil::kind_child;

verus! {

/// Whether some edge goes by a specifier.
pub open spec fn has_edge(edges: Seq<(Text, Wanted)>, spec: Text) -> bool {
    exists|i: int| 0 <= i < edges.len() && (#[trigger] edges[i]).0 == spec
}

/// Whether what a script says of its re-exports fits together: a re-exported
/// name is exported, `export * from` exports `*`, what is re-exported from is
/// depended on, and only a script that exports or re-exports has exports.
pub open spec fn is_coherent(s: ScriptView) -> bool {
    &&& forall|i: int|
        0 <= i < s.name_sources.len() ==> s.exports.contains((#[trigger] s.name_sources[i]).0) && has_edge(
            s.edges,
            s.name_sources[i].1,
        )
    &&& forall|i: int| 0 <= i < s.wildcards.len() ==> has_edge(s.edges, #[trigger] s.wildcards[i])
    &&& s.wildcards.len() > 0 ==> s.exports.contains("*"@)
    &&& s.name_sources.len() > 0 || s.wildcards.len() > 0 ==> s.has_reexports
    &&& s.exports.len() > 0 ==> s.has_local_exports || s.has_reexports
}

proof fn lemma_keeps_edges(edges: Seq<(Text, Wanted)>, e: (Text, Wanted), spec: Text)
    ensures
        has_edge(edges, spec) ==> has_edge(edges.push(e), spec),
        has_edge(edges.push(e), e.0),
{
    let more = edges.push(e);
    assert(more[edges.len() as int] == e);
    if has_edge(edges, spec) {
        let i = choose|i: int| 0 <= i < edges.len() && (#[trigger] edges[i]).0 == spec;
        assert(more[i].0 == spec);
    }
}

proof fn lemma_keeps_names(list: Seq<Text>, more: Seq<Text>, name: Text)
    ensures
        list.contains(name) ==> (list + more).contains(name),
        more.contains(name) ==> (list + more).contains(name),
{
    let all = list + more;
    if list.contains(name) {
        let i = choose|i: int| 0 <= i < list.len() && list[i] == name;
        assert(all[i] == name);
    }
    if more.contains(name) {
        let i = choose|i: int| 0 <= i < more.len() && more[i] == name;
        assert(all[list.len() + i] == name);
    }
}

/// A script with more edges and exports says the same of its re-exports.
proof fn lemma_grown(s: ScriptView, r: ScriptView, extra: Seq<Text>)
    requires
        is_coherent(s),
        r.exports == s.exports + extra,
        r.edges == s.edges || r.edges == s.edges.push(r.edges.last()),
        r.name_sources == s.name_sources,
        r.wildcards == s.wildcards,
        s.has_reexports ==> r.has_reexports,
        s.has_local_exports ==> r.has_local_exports,
        extra.len() > 0 ==> r.has_local_exports || r.has_reexports,
    ensures
        is_coherent(r),
{
    assert forall|spec: Text| has_edge(s.edges, spec) implies has_edge(r.edges, spec) by {
        lemma_keeps_edges(s.edges, r.edges.last(), spec);
    }
    assert forall|i: int| 0 <= i < r.name_sources.len() implies r.exports.contains(
        (#[trigger] r.name_sources[i]).0,
    ) && has_edge(r.edges, r.name_sources[i].1) by {
        lemma_keeps_names(s.exports, extra, s.name_sources[i].0);
    }
    lemma_keeps_names(s.exports, extra, "*"@);
}

/// A script with more re-exports from one specifier says what fits together.
proof fn lemma_grown_sources(s: ScriptView, r: ScriptView, spec: Text, names: Seq<Text>)
    requires
        is_coherent(s),
        r.exports == s.exports + names,
        r.edges == s.edges.push(r.edges.last()),
        r.edges.last().0 == spec,
        r.name_sources.len() == s.name_sources.len() + names.len(),
        forall|i: int| 0 <= i < s.name_sources.len() ==> r.name_sources[i] == #[trigger] s.name_sources[i],
        forall|i: int|
            s.name_sources.len() <= i < r.name_sources.len() ==> (#[trigger] r.name_sources[i]).0
                == names[i - s.name_sources.len()] && r.name_sources[i].1 == spec,
        r.wildcards == s.wildcards,
        r.has_reexports,
    ensures
        is_coherent(r),
{
    assert forall|spec: Text| has_edge(s.edges, spec) implies has_edge(r.edges, spec) by {
        lemma_keeps_edges(s.edges, r.edges.last(), spec);
    }
    lemma_keeps_edges(s.edges, r.edges.last(), spec);
    assert forall|i: int| 0 <= i < r.name_sources.len() implies r.exports.contains(
        (#[trigger] r.name_sources[i]).0,
    ) && has_edge(r.edges, r.name_sources[i].1) by {
        if i < s.name_sources.len() {
            assert(r.name_sources[i] == s.name_sources[i]);
            lemma_keeps_names(s.exports, names, s.name_sources[i].0);
        } else {
            let k = i - s.name_sources.len();
            assert(names.contains(names[k]));
            lemma_keeps_names(s.exports, names, names[k]);
        }
    }
    lemma_keeps_names(s.exports, names, "*"@);
}

proof fn lemma_after_reexport(t: Seq<NodeView>, src: Text, node: int, spec: Text, s: ScriptView)
    requires
        is_coherent(s),
    ensures
        is_coherent(after_reexport(t, src, node, spec, s)),
{
    let r = after_reexport(t, src, node, spec, s);
    match kind_child(t, node, "export_clause"@) {
        Some(clause) => {
            let pairs = clause_pairs(t, src, clause);
            let names = pairs.map_values(|p: (Text, Text)| p.1);
            lemma_grown_sources(s, r, spec, names);
        },
        None => match kind_child(t, node, "namespace_export"@) {
            Some(_) => {
                if r.name_sources.len() > s.name_sources.len() {
                    let names = seq![r.exports.last()];
                    assert(r.exports =~= s.exports + names);
                    lemma_grown_sources(s, r, spec, names);
                } else {
                    assert(r.exports =~= s.exports + Seq::<Text>::empty());
                    lemma_grown(s, r, Seq::empty());
                }
            },
            None => {
                let plain = ScriptView { wildcards: s.wildcards, ..r };
                assert(plain.exports =~= s.exports + seq!["*"@]);
                lemma_grown(s, plain, seq!["*"@]);
                lemma_keeps_edges(s.edges, r.edges.last(), spec);
                assert(r.exports[s.exports.len() as int] == "*"@);
                assert forall|i: int| 0 <= i < r.wildcards.len() implies has_edge(
                    r.edges,
                    #[trigger] r.wildcards[i],
                ) by {
                    if i < s.wildcards.len() {
                        assert(plain.wildcards[i] == r.wildcards[i]);
                    }
                }
                assert forall|i: int| 0 <= i < r.name_sources.len() implies r.exports.contains(
                    (#[trigger] r.name_sources[i]).0,
                ) && has_edge(r.edges, r.name_sources[i].1) by {
                    assert(plain.name_sources[i] == r.name_sources[i]);
                }
            },
        },
    }
}

proof fn lemma_after_node(t: Seq<NodeView>, src: Text, node: int, s: ScriptView)
    requires
        is_coherent(s),
    ensures
        is_coherent(after_node(t, src, node, s)),
{
    let r = after_node(t, src, node, s);
    if t[node].kind == "export_statement"@ && t[node].kind != "import_statement"@ {
        match export_source(t, src, node) {
            Some(spec) => {
                lemma_after_reexport(t, src, node, spec, s);
            },
            None => {
                let extra = r.exports.skip(s.exports.len() as int);
                assert(r.exports =~= s.exports + extra);
                lemma_grown(s, r, extra);
            },
        }
    } else {
        let extra = r.exports.skip(s.exports.len() as int);
        assert(r.exports =~= s.exports + extra);
        lemma_grown(s, r, extra);
    }
}

proof fn lemma_after_nodes(t: Seq<NodeView>, src: Text, order: Seq<int>)
    ensures
        is_coherent(after_nodes(t, src, order)),
    decreases order.len(),
{
    if order.len() > 0 {
        lemma_after_nodes(t, src, order.drop_last());
        lemma_after_node(t, src, order.last(), after_nodes(t, src, order.drop_last()));
    }
}

/// What a script says of its re-exports fits together, and its exports are in
/// order and free of duplicates.
pub proof fn scripts_are_coherent(t: Seq<NodeView>, src: Text)
    ensures
        is_coherent(script_of(t, src)),
        ascending(script_of(t, src).exports),
{
    lemma_after_nodes(t, src, visits(t));
    let all = after_nodes(t, src, visits(t));
    let s = script_of(t, src);
    seq_to_set_is_finite(all.exports);
    lemma_in_order_lists(all.exports.to_set());
    assert forall|name: Text| all.exports.contains(name) implies s.exports.contains(name) by {
        assert(all.exports.to_set().contains(name));
        assert(s.exports.to_set().contains(name));
    }
    assert forall|i: int| 0 <= i < s.name_sources.len() implies s.exports.contains(
        (#[trigger] s.name_sources[i]).0,
    ) && has_edge(s.edges, s.name_sources[i].1) by {
        assert(all.exports.contains(all.name_sources[i].0));
    }
    if s.exports.len() > 0 {
        assert(s.exports.to_set().contains(s.exports[0]));
        assert(all.exports.contains(s.exports[0]));
    }
}

} // verus!
