//! How what source files state becomes the graph.
use vstd::prelude::*;

use crate::effective::effective;
use crate::facts::{Edge, Facts, Target, Want, Wanted};
use crate::following::{edges_ask_for_what_they_need, what_is_asked_is_depended_on};
use crate::graph::{
    built_table, facts_of, is_java, node_of, node_sets, settled_table, shown, with_nodes, GraphOptions, World,
};
use crate::lang::js_ts::script_of;
use crate::lang::statements::{exports_own, reexports, scripts_export_by_statements};
use crate::lists::{lemma_from_filter_map, lemma_in_filter_map};
use crate::nodes::{
    build_view, external_name, first_provider, internal_want, known_want, open_ended, provides, prune_all, refine,
    source_map, wants_of, BuildView,
};
use crate::scan::{ContentsView, ScanView};
use crate::syntax::{is_preorder, NodeView};
use crate::text::Text;

verus! {

/// A file is a barrel exactly where it re-exports something and exports nothing of
/// its own: a script by its statements, a Python package that imports at its top
/// level and names no exports, and never a Java file.
pub proof fn barrels_export_nothing_of_their_own(world: World, scan: ScanView)
    ensures
        match scan.contents {
            ContentsView::Script(s) => node_of(world, scan).is_barrel <==> s.has_reexports && !s.has_local_exports,
            ContentsView::Python(m) => node_of(world, scan).is_barrel <==> m.imports_at_top && !m.names_exports
                && exists|dir: Text| scan.rel == #[trigger] (dir + "__init__.py"@),
            ContentsView::Java { .. } => !node_of(world, scan).is_barrel,
        },
{
    if let ContentsView::Python(m) = scan.contents {
        let end = "__init__.py"@;
        if crate::text::has_end(scan.rel, end) {
            let dir = scan.rel.take(scan.rel.len() - end.len());
            assert(scan.rel =~= dir + end);
        }
        if exists|dir: Text| scan.rel == #[trigger] (dir + end) {
            let dir = choose|dir: Text| scan.rel == #[trigger] (dir + end);
            assert((dir + end).skip((dir + end).len() - end.len()) =~= end);
        }
    }
}

/// A node has an edge to every other file that its facts lead to, with the names
/// that are needed, and names every specifier that leads out of the tree.
pub proof fn facts_become_a_node(
    hash: Text,
    facts: Facts,
    rel: Text,
    is_barrel: bool,
    file: Text,
    want: Wanted,
    spec: Text,
)
    ensures
        ({
            let node = build_view(hash, facts, rel, is_barrel);
            &&& node.dependencies.contains(file) <==> file != rel && exists|k: int|
                0 <= k < facts.dependencies.len() && (#[trigger] facts.dependencies[k]).target == Target::Internal(file)
            &&& node.dependency_wants.contains((file, want)) <==> file != rel && facts.dependencies.contains(
                (Edge { target: Target::Internal(file), want }),
            )
            &&& node.external_dependencies.contains(spec) <==> exists|k: int|
                0 <= k < facts.dependencies.len() && (#[trigger] facts.dependencies[k]).target == Target::External(spec)
            &&& node.hash == hash
            &&& node.exports == facts.exports
            &&& node.is_barrel == is_barrel
            &&& node.wildcard_fallbacks == facts.wildcard_fallbacks
        }),
{
    let deps = facts.dependencies;
    let f = internal_want(rel);
    let g = external_name();
    let kept = wants_of(deps, rel);
    let node = build_view(hash, facts, rel, is_barrel);
    let firsts = kept.map_values(|w: (Text, Wanted)| w.0);
    if node.dependencies.contains(file) {
        let i = choose|i: int| 0 <= i < firsts.len() && firsts[i] == file;
        assert(kept.contains(kept[i]));
        lemma_from_filter_map(deps, f, kept[i]);
        let k = choose|k: int| 0 <= k < deps.len() && f(#[trigger] deps[k]) == Some(kept[i]);
        assert(deps[k].target == Target::Internal(file));
    }
    if file != rel && exists|k: int|
        0 <= k < deps.len() && (#[trigger] deps[k]).target == Target::Internal(file) {
        let k = choose|k: int| 0 <= k < deps.len() && (#[trigger] deps[k]).target == Target::Internal(file);
        lemma_in_filter_map(deps, f, k);
        let i = choose|i: int| 0 <= i < kept.len() && kept[i] == (file, deps[k].want);
        assert(firsts[i] == file);
        assert(firsts.to_set().contains(file));
    }
    if kept.contains((file, want)) {
        lemma_from_filter_map(deps, f, (file, want));
        let k = choose|k: int| 0 <= k < deps.len() && f(#[trigger] deps[k]) == Some((file, want));
        assert(deps[k] == (Edge { target: Target::Internal(file), want }));
        assert(deps.contains(deps[k]));
    }
    let e = Edge { target: Target::Internal(file), want };
    if file != rel && deps.contains(e) {
        let k = choose|k: int| 0 <= k < deps.len() && deps[k] == e;
        lemma_in_filter_map(deps, f, k);
    }
    let outs = deps.filter_map(g);
    if node.external_dependencies.contains(spec) {
        assert(outs.contains(spec));
        lemma_from_filter_map(deps, g, spec);
        let k = choose|k: int| 0 <= k < deps.len() && g(#[trigger] deps[k]) == Some(spec);
        assert(deps[k].target == Target::External(spec));
    }
    if exists|k: int| 0 <= k < deps.len() && (#[trigger] deps[k]).target == Target::External(spec) {
        let k = choose|k: int| 0 <= k < deps.len() && (#[trigger] deps[k]).target == Target::External(spec);
        lemma_in_filter_map(deps, g, k);
        assert(outs.to_set().contains(spec));
    }
}

/// A node knows the source of every re-exported name of its facts, and of a name
/// that stands there more than once the last.
pub proof fn the_last_source_of_a_name_counts(facts: Facts, hash: Text, rel: Text, is_barrel: bool, name: Text)
    ensures
        ({
            let node = build_view(hash, facts, rel, is_barrel);
            &&& node.name_sources.contains_key(name) <==> exists|k: int|
                0 <= k < facts.name_sources.len() && (#[trigger] facts.name_sources[k]).0 == name
            &&& forall|k: int|
                0 <= k < facts.name_sources.len() && (#[trigger] facts.name_sources[k]).0 == name && (forall|j: int|
                    k < j < facts.name_sources.len() ==> (#[trigger] facts.name_sources[j]).0 != name)
                    ==> node.name_sources[name] == facts.name_sources[k].1
        }),
{
    let list = facts.name_sources;
    lemma_source_known(list, name);
    assert forall|k: int|
        0 <= k < list.len() && (#[trigger] list[k]).0 == name && (forall|j: int|
            k < j < list.len() ==> (#[trigger] list[j]).0 != name) implies source_map(list)[name] == list[k].1 by {
        lemma_source_last(list, name, k);
    }
}

proof fn lemma_source_known(list: Seq<(Text, (Target, Want))>, name: Text)
    ensures
        source_map(list).contains_key(name) <==> exists|k: int|
            0 <= k < list.len() && (#[trigger] list[k]).0 == name,
    decreases list.len(),
{
    if list.len() > 0 {
        let front = list.drop_last();
        lemma_source_known(front, name);
        assert(list[list.len() - 1] == list.last());
        if source_map(front).contains_key(name) {
            let k = choose|k: int| 0 <= k < front.len() && (#[trigger] front[k]).0 == name;
            assert(list[k].0 == name);
        }
        if exists|k: int| 0 <= k < list.len() && (#[trigger] list[k]).0 == name {
            let k = choose|k: int| 0 <= k < list.len() && (#[trigger] list[k]).0 == name;
            if k < front.len() {
                assert(front[k].0 == name);
            }
        }
    }
}

proof fn lemma_source_last(list: Seq<(Text, (Target, Want))>, name: Text, k: int)
    requires
        0 <= k < list.len(),
        list[k].0 == name,
        forall|j: int| k < j < list.len() ==> (#[trigger] list[j]).0 != name,
    ensures
        source_map(list)[name] == list[k].1,
    decreases list.len(),
{
    if k < list.len() - 1 {
        let front = list.drop_last();
        assert(list[list.len() - 1].0 != name);
        assert(front[k] == list[k]);
        assert forall|j: int| k < j < front.len() implies (#[trigger] front[j]).0 != name by {
            assert(list[j].0 != name);
        }
        lemma_source_last(front, name, k);
    }
}

/// Whether a reference leads to a file with a node, or out of the tree.
pub open spec fn leads_somewhere(nodes: Map<Text, BuildView>, target: Target) -> bool {
    match target {
        Target::Internal(file) => nodes.contains_key(file),
        Target::External(_) => true,
    }
}

/// Settling the table keeps the files and what they are, drops from each node
/// exactly the references to files without a node, and keeps the sources of names
/// that lead somewhere.
pub proof fn settling_drops_dangling_references(
    nodes: Map<Text, BuildView>,
    rel: Text,
    file: Text,
    want: Wanted,
    name: Text,
)
    ensures
        settled_table(nodes).contains_key(rel) <==> nodes.contains_key(rel),
        nodes.contains_key(rel) ==> {
            let was = nodes[rel];
            let now = settled_table(nodes)[rel];
            &&& now.hash == was.hash
            &&& now.exports == was.exports
            &&& now.is_barrel == was.is_barrel
            &&& now.external_dependencies == was.external_dependencies
            &&& now.dependencies.contains(file) <==> was.dependencies.contains(file) && nodes.contains_key(file)
            &&& now.dependency_wants.contains((file, want)) <==> was.dependency_wants.contains((file, want))
                && nodes.contains_key(file)
            &&& was.name_sources.contains_key(name) && leads_somewhere(nodes, was.name_sources[name].0)
                ==> now.name_sources.contains_key(name) && now.name_sources[name] == was.name_sources[name]
        },
{
    let pruned = prune_all(nodes);
    assert(pruned.dom() =~= nodes.dom());
    if nodes.contains_key(rel) {
        let was = nodes[rel];
        let f = known_want(nodes.dom());
        let w = (file, want);
        let all = was.dependency_wants;
        if all.contains(w) && nodes.contains_key(file) {
            let i = choose|i: int| 0 <= i < all.len() && all[i] == w;
            all.lemma_filter_contains(f, i);
        }
        if all.filter(f).contains(w) {
            let i = choose|i: int| 0 <= i < all.filter(f).len() && all.filter(f)[i] == w;
            all.lemma_filter_pred(f, i);
            all.lemma_filter_contains_rev(f, w);
        }
    }
}

/// A name that a node names no source for comes from the first of its wildcard
/// targets that exports it, under the same name. A wildcard target stays open
/// where it leads out of the tree or exports names that are not known, and only
/// there.
pub proof fn wildcards_are_looked_into(nodes: Map<Text, BuildView>, node: BuildView, name: Text, k: int, target: Target)
    requires
        0 <= k < node.wildcard_fallbacks.len(),
    ensures
        !node.name_sources.contains_key(name) && exports_name(nodes, node.wildcard_fallbacks[k], name) && (forall|
            j: int,
        |
            0 <= j < k ==> !exports_name(nodes, #[trigger] node.wildcard_fallbacks[j], name)) ==> refine(
            nodes,
            node,
        ).name_sources.contains_key(name) && refine(nodes, node).name_sources[name] == (
            node.wildcard_fallbacks[k],
            Want::Name(name),
        ),
        refine(nodes, node).wildcard_fallbacks.contains(target) <==> node.wildcard_fallbacks.contains(target)
            && match target {
            Target::Internal(file) => nodes.contains_key(file) ==> nodes[file].exports.contains("*"@),
            Target::External(_) => true,
        },
{
    let all = node.wildcard_fallbacks;
    if !node.name_sources.contains_key(name) && exports_name(nodes, all[k], name) && (forall|j: int|
        0 <= j < k ==> !exports_name(nodes, #[trigger] all[j], name)) {
        lemma_first_provider(nodes, all, name, k);
    }
    let f = open_ended(nodes);
    if all.contains(target) && f(target) {
        let i = choose|i: int| 0 <= i < all.len() && all[i] == target;
        all.lemma_filter_contains(f, i);
    }
    if all.filter(f).contains(target) {
        let i = choose|i: int| 0 <= i < all.filter(f).len() && all.filter(f)[i] == target;
        all.lemma_filter_pred(f, i);
        all.lemma_filter_contains_rev(f, target);
    }
}

/// Whether a target is a file with a node that exports a name, which is not the
/// star that stands for names that are not known.
pub open spec fn exports_name(nodes: Map<Text, BuildView>, target: Target, name: Text) -> bool {
    name != "*"@ && match target {
        Target::Internal(file) => nodes.contains_key(file) && nodes[file].exports.contains(name),
        Target::External(_) => false,
    }
}

proof fn lemma_first_provider(nodes: Map<Text, BuildView>, list: Seq<Target>, name: Text, k: int)
    requires
        0 <= k < list.len(),
        exports_name(nodes, list[k], name),
        forall|j: int| 0 <= j < k ==> !exports_name(nodes, #[trigger] list[j], name),
    ensures
        first_provider(nodes, list, name) == Some(list[k]),
    decreases list.len(),
{
    let front = list.drop_last();
    if k < front.len() {
        assert(front[k] == list[k]);
        assert forall|j: int| 0 <= j < k implies !exports_name(nodes, #[trigger] front[j], name) by {
            assert(front[j] == list[j]);
        }
        lemma_first_provider(nodes, front, name, k);
    } else {
        assert forall|j: int| 0 <= j < front.len() implies !exports_name(nodes, #[trigger] front[j], name) by {
            assert(front[j] == list[j]);
        }
        lemma_no_provider(nodes, front, name);
        assert(provides(nodes, list.last(), name));
    }
}

proof fn lemma_no_provider(nodes: Map<Text, BuildView>, list: Seq<Target>, name: Text)
    requires
        forall|j: int| 0 <= j < list.len() ==> !exports_name(nodes, #[trigger] list[j], name),
    ensures
        first_provider(nodes, list, name) is None,
    decreases list.len(),
{
    if list.len() > 0 {
        let front = list.drop_last();
        assert forall|j: int| 0 <= j < front.len() implies !exports_name(nodes, #[trigger] front[j], name) by {
            assert(front[j] == list[j]);
        }
        lemma_no_provider(nodes, front, name);
        assert(!exports_name(nodes, list[list.len() - 1], name));
    }
}

proof fn lemma_node_at(nodes: Map<Text, BuildView>, world: World, scans: Seq<ScanView>, java: bool, i: int)
    requires
        0 <= i < scans.len(),
        forall|j: int| 0 <= j < scans.len() && j != i ==> (#[trigger] scans[j]).rel != scans[i].rel,
    ensures
        is_java(scans[i]) == java ==> with_nodes(nodes, world, scans, java).contains_key(scans[i].rel)
            && with_nodes(nodes, world, scans, java)[scans[i].rel] == node_of(world, scans[i]),
        is_java(scans[i]) != java ==> (with_nodes(nodes, world, scans, java).contains_key(scans[i].rel)
            <==> nodes.contains_key(scans[i].rel)) && (nodes.contains_key(scans[i].rel) ==> with_nodes(
            nodes,
            world,
            scans,
            java,
        )[scans[i].rel] == nodes[scans[i].rel]),
    decreases scans.len(),
{
    let front = scans.drop_last();
    if i < front.len() {
        assert(front[i] == scans[i]);
        assert forall|j: int| 0 <= j < front.len() && j != i implies (#[trigger] front[j]).rel != front[i].rel by {
            assert(front[j] == scans[j]);
        }
        lemma_node_at(nodes, world, front, java, i);
        assert(scans[scans.len() - 1].rel != scans[i].rel);
    } else {
        lemma_not_among(nodes, world, front, java, scans[i].rel);
    }
}

proof fn lemma_not_among(nodes: Map<Text, BuildView>, world: World, scans: Seq<ScanView>, java: bool, rel: Text)
    requires
        forall|j: int| 0 <= j < scans.len() ==> (#[trigger] scans[j]).rel != rel,
    ensures
        with_nodes(nodes, world, scans, java).contains_key(rel) <==> nodes.contains_key(rel),
        nodes.contains_key(rel) ==> with_nodes(nodes, world, scans, java)[rel] == nodes[rel],
    decreases scans.len(),
{
    if scans.len() > 0 {
        let front = scans.drop_last();
        assert forall|j: int| 0 <= j < front.len() implies (#[trigger] front[j]).rel != rel by {
            assert(front[j] == scans[j]);
        }
        lemma_not_among(nodes, world, front, java, rel);
        assert(scans[scans.len() - 1].rel != rel);
    }
}

/// A source file whose path no other has gets the node that it makes.
pub proof fn every_file_gets_its_own_node(world: World, scans: Seq<ScanView>, i: int)
    requires
        0 <= i < scans.len(),
        forall|j: int| 0 <= j < scans.len() && j != i ==> (#[trigger] scans[j]).rel != scans[i].rel,
    ensures
        built_table(world, scans).contains_key(scans[i].rel),
        built_table(world, scans)[scans[i].rel] == node_of(world, scans[i]),
{
    lemma_node_at(Map::empty(), world, scans, true, i);
    lemma_node_at(with_nodes(Map::empty(), world, scans, true), world, scans, false, i);
}

/// A script with an export of its own has a node under every option, and a script
/// that only re-exports has one only where barrels are kept.
pub proof fn own_exports_are_always_shown(
    world: World,
    scans: Seq<ScanView>,
    i: int,
    t: Seq<NodeView>,
    src: Text,
    n: int,
    opts: GraphOptions,
)
    requires
        0 <= i < scans.len(),
        forall|j: int| 0 <= j < scans.len() && j != i ==> (#[trigger] scans[j]).rel != scans[i].rel,
        is_preorder(t),
        scans[i].contents == ContentsView::Script(script_of(t, src)),
        0 <= n < t.len(),
    ensures
        exports_own(t, src, n) ==> shown(settled_table(built_table(world, scans)), opts).contains(scans[i].rel),
        reexports(t, src, n) && (forall|m: int| 0 <= m < t.len() ==> !(#[trigger] exports_own(t, src, m))) ==> (shown(
            settled_table(built_table(world, scans)),
            opts,
        ).contains(scans[i].rel) <==> opts.include_barrels),
{
    every_file_gets_its_own_node(world, scans, i);
    barrels_export_nothing_of_their_own(world, scans[i]);
    scripts_export_by_statements(t, src);
    settling_drops_dangling_references(
        built_table(world, scans),
        scans[i].rel,
        scans[i].rel,
        Wanted::All,
        scans[i].rel,
    );
}

/// What the graph says of a file: with barrels kept, the files that its edges lead
/// to and those that they come to through barrels, with the reverse of both; with
/// barrels left out, what they come to alone, and of the reverse only shown files.
pub proof fn nodes_say_what_they_depend_on(
    nodes: Map<Text, BuildView>,
    rel: Text,
    opts: GraphOptions,
    other: Text,
)
    requires
        nodes.contains_key(rel),
        nodes.contains_key(other),
    ensures
        ({
            let sets = node_sets(nodes, rel, opts);
            &&& sets.hash == nodes[rel].hash
            &&& sets.exports == nodes[rel].exports
            &&& opts.include_external ==> sets.external_dependencies == Some(nodes[rel].external_dependencies)
            &&& opts.include_barrels ==> {
                &&& sets.dependencies.contains(other) <==> nodes[rel].dependencies.contains(other)
                &&& sets.dependents.contains(other) <==> nodes[other].dependencies.contains(rel)
                &&& sets.effective_dependencies is Some
                &&& sets.effective_dependencies->0.contains(other) <==> effective(nodes, rel).contains(other)
                &&& sets.effective_dependents is Some
                &&& sets.effective_dependents->0.contains(other) <==> effective(nodes, other).contains(rel)
            }
            &&& !opts.include_barrels ==> {
                &&& sets.dependencies.contains(other) <==> effective(nodes, rel).contains(other)
                &&& sets.dependents.contains(other) <==> effective(nodes, other).contains(rel)
                    && !nodes[other].is_barrel
            }
        }),
        shown(nodes, opts).contains(rel) <==> opts.include_barrels || !nodes[rel].is_barrel,
{
}

/// A file whose facts lead to another source file that is no barrel depends on it
/// in the graph, whatever the options, and the other has it among its dependents.
pub proof fn imports_become_dependencies(
    world: World,
    scans: Seq<ScanView>,
    i: int,
    j: int,
    k: int,
    opts: GraphOptions,
)
    requires
        0 <= i < scans.len(),
        0 <= j < scans.len(),
        i != j,
        forall|a: int, b: int|
            0 <= a < b < scans.len() ==> (#[trigger] scans[a]).rel != (#[trigger] scans[b]).rel,
        0 <= k < facts_of(world, scans[i]).dependencies.len(),
        facts_of(world, scans[i]).dependencies[k].target == Target::Internal(scans[j].rel),
        !node_of(world, scans[j]).is_barrel,
        shown(settled_table(built_table(world, scans)), opts).contains(scans[i].rel),
    ensures
        node_sets(settled_table(built_table(world, scans)), scans[i].rel, opts).dependencies.contains(scans[j].rel),
        node_sets(settled_table(built_table(world, scans)), scans[j].rel, opts).dependents.contains(scans[i].rel),
{
    let nodes = built_table(world, scans);
    let tab = settled_table(nodes);
    let a = scans[i].rel;
    let b = scans[j].rel;
    let facts = facts_of(world, scans[i]);
    let edge = facts.dependencies[k];
    assert(a != b) by {
        if i < j {
            assert(scans[i].rel != scans[j].rel);
        } else {
            assert(scans[j].rel != scans[i].rel);
        }
    }
    assert forall|m: int| 0 <= m < scans.len() && m != i implies (#[trigger] scans[m]).rel != scans[i].rel by {
        if m < i {
            assert(scans[m].rel != scans[i].rel);
        } else {
            assert(scans[i].rel != scans[m].rel);
        }
    }
    assert forall|m: int| 0 <= m < scans.len() && m != j implies (#[trigger] scans[m]).rel != scans[j].rel by {
        if m < j {
            assert(scans[m].rel != scans[j].rel);
        } else {
            assert(scans[j].rel != scans[m].rel);
        }
    }
    every_file_gets_its_own_node(world, scans, i);
    every_file_gets_its_own_node(world, scans, j);
    let node = node_of(world, scans[i]);
    assert(edge == (Edge { target: Target::Internal(b), want: edge.want }));
    assert(facts.dependencies.contains(edge));
    facts_become_a_node(scans[i].hash, facts, a, node.is_barrel, b, edge.want, a);
    assert(node.dependency_wants.contains((b, edge.want)));
    settling_drops_dangling_references(nodes, a, b, edge.want, a);
    settling_drops_dangling_references(nodes, b, a, edge.want, a);
    let wants = tab[a].dependency_wants;
    let x = choose|x: int| 0 <= x < wants.len() && wants[x] == (b, edge.want);
    assert(tab[a].dependency_wants[x] == (b, edge.want));
    let first = match edge.want {
        Wanted::All => Want::All,
        Wanted::Named(names) => if names.len() == 0 {
            Want::All
        } else {
            Want::Name(names[0])
        },
    };
    let name = match edge.want {
        Wanted::All => Seq::empty(),
        Wanted::Named(names) => if names.len() == 0 {
            Seq::empty()
        } else {
            names[0]
        },
    };
    edges_ask_for_what_they_need(tab, a, x, name);
    if let Wanted::Named(names) = edge.want {
        if names.len() > 0 {
            assert(names.contains(names[0]));
        }
    }
    assert(crate::effective::asked(tab, a, (b, first)));
    what_is_asked_is_depended_on(tab, a, b, first);
}

} // verus!
