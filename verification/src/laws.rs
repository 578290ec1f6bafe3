//! What holds of every graph.
use vstd::prelude::*;

use crate::disk::agree_on;
use crate::effective::{
    asked, asks, chain, effective, leads_to, lemma_asked_seed, lemma_asked_step, seeded, step,
};
use crate::excludes::excluded;
use crate::facts::{Target, Want, Wanted};
use crate::graph::{
    built_table, dependents, effective_dependents, facts_of, is_graph_of, is_java, node_of, node_sets, scope_of,
    settled_table, shown, with_nodes, world_of, GraphOptions, World,
};
use crate::model::{lists_optional, node_paths, Node};
use crate::nodes::{
    first_provider, internal_want, paths_of, provides, prune_all, refine, wants_of, BuildView,
};
use crate::order::{ascending_unique, lists};
use crate::scan::{
    grammar_of, is_scan, same_text_same_scan, scan_in, scan_knows_its_file, scan_probes, ContentsView, ScanView,
};
use crate::syntax::{locales_agree, locales_agree_on_plain_text, reads_alike, Locale};
use crate::text::{texts, Text};
use crate::walk::{collected_files_are_wanted, is_sorted_list, source_file, FileView};

verus! {

/// Dependencies and dependents mirror each other: a shown file lists another
/// as a dependency exactly where the other lists it as a dependent.
pub proof fn dependents_mirror_dependencies(
    nodes: Map<Text, BuildView>,
    opts: GraphOptions,
    a: Text,
    b: Text,
)
    requires
        shown(nodes, opts).contains(a),
        shown(nodes, opts).contains(b),
    ensures
        node_sets(nodes, a, opts).dependencies.contains(b) <==> node_sets(
            nodes,
            b,
            opts,
        ).dependents.contains(a),
        opts.include_barrels ==> (node_sets(nodes, a, opts).effective_dependencies->0.contains(b)
            <==> node_sets(nodes, b, opts).effective_dependents->0.contains(a)),
{
}

/// No node names a file that the graph does not show.
pub proof fn graph_is_closed(
    nodes: Map<Text, BuildView>,
    opts: GraphOptions,
    rel: Text,
    other: Text,
)
    requires
        shown(settled_table(nodes), opts).contains(rel),
    ensures
        ({
            let sets = node_sets(settled_table(nodes), rel, opts);
            &&& sets.dependencies.contains(other) ==> shown(settled_table(nodes), opts).contains(other)
            &&& sets.dependents.contains(other) ==> shown(settled_table(nodes), opts).contains(other)
            &&& opts.include_barrels && sets.effective_dependencies->0.contains(other) ==> shown(
                settled_table(nodes),
                opts,
            ).contains(other)
            &&& opts.include_barrels && sets.effective_dependents->0.contains(other) ==> shown(
                settled_table(nodes),
                opts,
            ).contains(other)
        }),
{
    let pruned = prune_all(nodes);
    assert(pruned.dom() =~= nodes.dom());
    assert(settled_table(nodes).dom() =~= nodes.dom());
}

/// Effective dependencies lead to no barrel and not back to the file itself.
pub proof fn effective_skips_barrels(nodes: Map<Text, BuildView>, rel: Text, other: Text)
    requires
        effective(nodes, rel).contains(other),
    ensures
        nodes.contains_key(other),
        !nodes[other].is_barrel,
        other != rel,
{
}

/// Where barrels are left out, no shown file is one, and nothing of a node
/// tells of them; where external dependencies are left out, no node has any.
pub proof fn options_are_kept(nodes: Map<Text, BuildView>, opts: GraphOptions, rel: Text)
    requires
        shown(nodes, opts).contains(rel),
    ensures
        !opts.include_barrels ==> {
            let sets = node_sets(nodes, rel, opts);
            &&& !nodes[rel].is_barrel
            &&& sets.is_barrel is None
            &&& sets.effective_dependencies is None
            &&& sets.effective_dependents is None
        },
        opts.include_barrels ==> node_sets(nodes, rel, opts).is_barrel == Some(nodes[rel].is_barrel),
        node_sets(nodes, rel, opts).external_dependencies is Some <==> opts.include_external,
{
}

/// Without barrels between them, the files that a file depends on effectively
/// are those that its edges lead to.
pub proof fn effective_without_barrels(nodes: Map<Text, BuildView>, rel: Text, other: Text)
    requires
        nodes.contains_key(rel),
        forall|p: Text| #[trigger] nodes.contains_key(p) ==> !nodes[p].is_barrel,
    ensures
        effective(nodes, rel).contains(other) <==> other != rel && nodes.contains_key(other)
            && leads_to(nodes[rel].dependency_wants, other),
{
    let edges = nodes[rel].dependency_wants;
    if effective(nodes, rel).contains(other) {
        let w = choose|w: Want| #[trigger] asked(nodes, rel, (other, w));
        let path = choose|path: Seq<(Text, Want)>| #[trigger]
            chain(nodes, rel, path) && path.last() == (other, w);
        if path.len() > 1 {
            assert(step(nodes, rel, path[0], path[1]));
        }
        assert(path[0] == (other, w));
        let i = choose|i: int|
            0 <= i < edges.len() && (#[trigger] edges[i]).0 == other && asks(edges[i].1, w);
        assert(edges[i].0 == other);
    }
    if other != rel && nodes.contains_key(other) && leads_to(edges, other) {
        let i = choose|i: int| 0 <= i < edges.len() && (#[trigger] edges[i]).0 == other;
        let w = match edges[i].1 {
            Wanted::All => Want::All,
            Wanted::Named(names) => if names.len() == 0 {
                Want::All
            } else {
                Want::Name(names[0])
            },
        };
        assert(asks(edges[i].1, w));
        assert(seeded(edges, other, w));
        lemma_asked_seed(nodes, rel, (other, w));
        assert(asked(nodes, rel, (other, w)));
    }
}

/// A name that a barrel takes from a file that is no barrel leads an importer
/// of that name to that file, and asking for the name leads nowhere else.
pub proof fn named_import_is_narrow(
    nodes: Map<Text, BuildView>,
    rel: Text,
    barrel: Text,
    name: Text,
    source: Text,
)
    requires
        barrel != rel,
        source != rel,
        nodes.contains_key(barrel),
        nodes[barrel].is_barrel,
        nodes[barrel].name_sources.contains_key(name),
        nodes[barrel].name_sources[name].0 == Target::Internal(source),
        nodes.contains_key(source),
        !nodes[source].is_barrel,
        seeded(nodes[rel].dependency_wants, barrel, Want::Name(name)),
    ensures
        effective(nodes, rel).contains(source),
        forall|b: (Text, Want)| #[trigger]
            step(nodes, rel, (barrel, Want::Name(name)), b) <==> b == (
                source,
                nodes[barrel].name_sources[name].1,
            ),
{
    let there = nodes[barrel].name_sources[name].1;
    let a = (barrel, Want::Name(name));
    let b = (source, there);
    lemma_asked_seed(nodes, rel, a);
    assert(step(nodes, rel, a, b));
    lemma_asked_step(nodes, rel, a, b);
    assert(asked(nodes, rel, (source, there)));
}

/// A name is followed through any number of barrels that rename it: each is
/// asked for the name that it knows, and the file at the end is an effective
/// dependency.
pub proof fn renamed_names_are_followed(nodes: Map<Text, BuildView>, rel: Text, names: Seq<(Text, Text)>)
    requires
        names.len() > 0,
        seeded(nodes[rel].dependency_wants, names[0].0, Want::Name(names[0].1)),
        forall|i: int| 0 <= i < names.len() ==> (#[trigger] names[i]).0 != rel && nodes.contains_key(names[i].0),
        forall|i: int|
            0 <= i < names.len() - 1 ==> {
                let barrel = nodes[(#[trigger] names[i]).0];
                &&& barrel.is_barrel
                &&& barrel.name_sources.contains_key(names[i].1)
                &&& barrel.name_sources[names[i].1] == (
                    Target::Internal(names[i + 1].0),
                    Want::Name(names[i + 1].1),
                )
            },
        !nodes[names.last().0].is_barrel,
    ensures
        effective(nodes, rel).contains(names.last().0),
{
    let path = names.map_values(|n: (Text, Text)| (n.0, Want::Name(n.1)));
    assert forall|i: int| 0 <= i < path.len() - 1 implies step(nodes, rel, #[trigger] path[i], path[i + 1]) by {
        let n = names[i];
        assert(path[i + 1] == (names[i + 1].0, Want::Name(names[i + 1].1)));
    }
    assert(chain(nodes, rel, path));
    let last = (names.last().0, Want::Name(names.last().1));
    assert(path.last() == last);
    assert(asked(nodes, rel, last));
}

/// An import that cannot be narrowed, or asks a barrel for a name that it does
/// not know and has no open wildcard target for, reaches all that the barrel
/// leads to.
pub proof fn broad_import_reaches_everything(
    nodes: Map<Text, BuildView>,
    rel: Text,
    barrel: Text,
    want: Want,
    target: Text,
)
    requires
        barrel != rel,
        target != rel,
        nodes.contains_key(barrel),
        nodes[barrel].is_barrel,
        seeded(nodes[rel].dependency_wants, barrel, want),
        match want {
            Want::All => true,
            Want::Name(name) => !nodes[barrel].name_sources.contains_key(name)
                && nodes[barrel].wildcard_fallbacks.len() == 0,
        },
        leads_to(nodes[barrel].dependency_wants, target),
        nodes.contains_key(target),
        !nodes[target].is_barrel,
    ensures
        effective(nodes, rel).contains(target),
{
    let a = (barrel, want);
    let b = (target, Want::All);
    lemma_asked_seed(nodes, rel, a);
    assert(step(nodes, rel, a, b));
    lemma_asked_step(nodes, rel, a, b);
    assert(asked(nodes, rel, (target, Want::All)));
}

/// Every name that a wildcard target is known to export gets a source that
/// exports it under the same name, and the names that had one keep it.
pub proof fn wildcard_names_get_sources(
    nodes: Map<Text, BuildView>,
    node: BuildView,
    target: Target,
    name: Text,
)
    ensures
        node.wildcard_fallbacks.contains(target) && provides(nodes, target, name) ==> refine(
            nodes,
            node,
        ).name_sources.contains_key(name),
        node.name_sources.contains_key(name) ==> refine(nodes, node).name_sources.contains_key(name)
            && refine(nodes, node).name_sources[name] == node.name_sources[name],
        refine(nodes, node).name_sources.contains_key(name) && !node.name_sources.contains_key(name) ==> provides(
            nodes,
            refine(nodes, node).name_sources[name].0,
            name,
        ) && refine(nodes, node).name_sources[name].1 == Want::Name(name),
{
    lemma_provider_provides(nodes, node.wildcard_fallbacks, name);
    if node.wildcard_fallbacks.contains(target) && provides(nodes, target, name) {
        lemma_some_provider(nodes, node.wildcard_fallbacks, target, name);
    }
}

proof fn lemma_provider_provides(nodes: Map<Text, BuildView>, fallbacks: Seq<Target>, name: Text)
    ensures
        first_provider(nodes, fallbacks, name) is Some ==> provides(
            nodes,
            first_provider(nodes, fallbacks, name)->0,
            name,
        ),
    decreases fallbacks.len(),
{
    if fallbacks.len() > 0 {
        lemma_provider_provides(nodes, fallbacks.drop_last(), name);
    }
}

proof fn lemma_some_provider(
    nodes: Map<Text, BuildView>,
    fallbacks: Seq<Target>,
    target: Target,
    name: Text,
)
    requires
        fallbacks.contains(target),
        provides(nodes, target, name),
    ensures
        first_provider(nodes, fallbacks, name) is Some,
    decreases fallbacks.len(),
{
    let i = choose|i: int| 0 <= i < fallbacks.len() && fallbacks[i] == target;
    if i < fallbacks.len() - 1 {
        assert(fallbacks.drop_last()[i] == target);
        lemma_some_provider(nodes, fallbacks.drop_last(), target, name);
    }
}

/// The source files are what the graph has nodes for, before barrels are left
/// out.
pub proof fn every_file_has_a_node(world: World, scans: Seq<ScanView>, rel: Text)
    ensures
        settled_table(built_table(world, scans)).contains_key(rel) <==> exists|i: int|
            0 <= i < scans.len() && (#[trigger] scans[i]).rel == rel,
{
    let javas = with_nodes(Map::empty(), world, scans, true);
    lemma_with_nodes_keys(Map::empty(), world, scans, true, rel);
    lemma_with_nodes_keys(javas, world, scans, false, rel);
}

proof fn lemma_with_nodes_keys(
    nodes: Map<Text, BuildView>,
    world: World,
    scans: Seq<ScanView>,
    java: bool,
    rel: Text,
)
    ensures
        with_nodes(nodes, world, scans, java).contains_key(rel) <==> nodes.contains_key(rel) || exists|
            i: int,
        |
            0 <= i < scans.len() && (#[trigger] scans[i]).rel == rel && is_java(scans[i]) == java,
    decreases scans.len(),
{
    if scans.len() > 0 {
        let front = scans.drop_last();
        lemma_with_nodes_keys(nodes, world, front, java, rel);
        assert forall|i: int| 0 <= i < front.len() implies #[trigger] scans[i] == front[i] by {}
        assert(scans[scans.len() - 1] == scans.last());
        if exists|i: int|
            0 <= i < front.len() && (#[trigger] front[i]).rel == rel && is_java(front[i]) == java {
            let i = choose|i: int|
                0 <= i < front.len() && (#[trigger] front[i]).rel == rel && is_java(front[i]) == java;
            assert(scans[i].rel == rel);
        }
        if exists|i: int|
            0 <= i < scans.len() && (#[trigger] scans[i]).rel == rel && is_java(scans[i]) == java {
            let i = choose|i: int|
                0 <= i < scans.len() && (#[trigger] scans[i]).rel == rel && is_java(scans[i]) == java;
            if i < front.len() {
                assert(front[i].rel == rel);
            }
        }
    }
}

/// No file depends on itself.
pub proof fn no_file_depends_on_itself(
    world: World,
    scans: Seq<ScanView>,
    opts: GraphOptions,
    rel: Text,
)
    requires
        shown(settled_table(built_table(world, scans)), opts).contains(rel),
    ensures
        ({
            let sets = node_sets(settled_table(built_table(world, scans)), rel, opts);
            &&& !sets.dependencies.contains(rel)
            &&& !sets.dependents.contains(rel)
            &&& opts.include_barrels ==> !sets.effective_dependencies->0.contains(rel)
            &&& opts.include_barrels ==> !sets.effective_dependents->0.contains(rel)
        }),
{
    let javas = with_nodes(Map::empty(), world, scans, true);
    lemma_with_nodes_apart(Map::empty(), world, scans, true, rel);
    lemma_with_nodes_apart(javas, world, scans, false, rel);
}

proof fn lemma_with_nodes_apart(
    nodes: Map<Text, BuildView>,
    world: World,
    scans: Seq<ScanView>,
    java: bool,
    rel: Text,
)
    requires
        nodes.contains_key(rel) ==> !nodes[rel].dependencies.contains(rel),
    ensures
        with_nodes(nodes, world, scans, java).contains_key(rel) ==> !with_nodes(
            nodes,
            world,
            scans,
            java,
        )[rel].dependencies.contains(rel),
    decreases scans.len(),
{
    if scans.len() > 0 {
        lemma_with_nodes_apart(nodes, world, scans.drop_last(), java, rel);
        let scan = scans.last();
        if scan.rel == rel {
            let deps = facts_of(world, scan).dependencies;
            let kept = wants_of(deps, rel);
            if paths_of(kept).contains(rel) {
                let paths = kept.map_values(|w: (Text, Wanted)| w.0);
                let i = choose|i: int| 0 <= i < paths.len() && paths[i] == rel;
                assert(kept.contains(kept[i]));
                deps.lemma_filter_map_contains(internal_want(rel), kept[i]);
            }
        }
    }
}

/// The graph depends on what is known of the files that are looked for alone.
pub proof fn graph_asks_probes_only(
    world: World,
    disk: Map<Text, Option<Text>>,
    scans: Seq<ScanView>,
)
    requires
        forall|i: int|
            0 <= i < scans.len() ==> agree_on(
                world.disk,
                disk,
                scan_probes(#[trigger] scans[i], scope_of(world, scans[i])),
            ),
    ensures
        built_table(world, scans) == built_table((World { disk, ..world }), scans),
{
    let other = World { disk, ..world };
    assert forall|i: int| 0 <= i < scans.len() implies node_of(world, #[trigger] scans[i]) == node_of(
        other,
        scans[i],
    ) by {
        let scan = scans[i];
        let scope = scope_of(world, scan);
        assert(scope_of(other, scan) == scope);
        match scan.contents {
            ContentsView::Java { .. } => {},
            ContentsView::Python(m) => {
                crate::lang::python::facts_ask_probes_only(
                    m,
                    world.root,
                    scan.dir,
                    scan.rel,
                    world.disk,
                    disk,
                );
            },
            ContentsView::Script(s) => {
                crate::lang::js_ts::facts_ask_probes_only(s, scope, world.disk, disk);
            },
        }
    }
    lemma_with_nodes_same(Map::empty(), world, other, scans, true);
    lemma_with_nodes_same(with_nodes(Map::empty(), world, scans, true), world, other, scans, false);
}

proof fn lemma_with_nodes_same(
    nodes: Map<Text, BuildView>,
    a: World,
    b: World,
    scans: Seq<ScanView>,
    java: bool,
)
    requires
        forall|i: int|
            0 <= i < scans.len() ==> node_of(a, #[trigger] scans[i]) == node_of(b, scans[i]),
    ensures
        with_nodes(nodes, a, scans, java) == with_nodes(nodes, b, scans, java),
    decreases scans.len(),
{
    if scans.len() > 0 {
        let front = scans.drop_last();
        assert forall|i: int| 0 <= i < front.len() implies node_of(a, #[trigger] front[i]) == node_of(
            b,
            front[i],
        ) by {
            assert(front[i] == scans[i]);
        }
        lemma_with_nodes_same(nodes, a, b, front, java);
        assert(scans[scans.len() - 1] == scans.last());
    }
}

/// Whether two optional lists hold the same texts.
pub open spec fn same_optional(a: Option<Vec<String>>, b: Option<Vec<String>>) -> bool {
    match (a, b) {
        (Some(x), Some(y)) => texts(x@) == texts(y@),
        (None, None) => true,
        _ => false,
    }
}

/// Whether two nodes hold the same texts.
pub open spec fn same_node(a: Node, b: Node) -> bool {
    &&& a.hash@ == b.hash@
    &&& a.is_barrel == b.is_barrel
    &&& texts(a.exports@) == texts(b.exports@)
    &&& texts(a.dependencies@) == texts(b.dependencies@)
    &&& texts(a.dependents@) == texts(b.dependents@)
    &&& same_optional(a.effective_dependencies, b.effective_dependencies)
    &&& same_optional(a.effective_dependents, b.effective_dependents)
    &&& same_optional(a.external_dependencies, b.external_dependencies)
}

/// The graph is determined by its table and the options: there is one list of
/// nodes that says what they give.
pub proof fn graph_is_determined(
    a: Seq<(String, Node)>,
    b: Seq<(String, Node)>,
    nodes: Map<Text, BuildView>,
    opts: GraphOptions,
)
    requires
        is_graph_of(a, nodes, opts),
        is_graph_of(b, nodes, opts),
    ensures
        node_paths(a) == node_paths(b),
        forall|i: int| 0 <= i < a.len() ==> same_node((#[trigger] a[i]).1, b[i].1),
{
    ascending_unique(node_paths(a), node_paths(b));
    assert(a.len() == node_paths(a).len());
    assert(b.len() == node_paths(b).len());
    assert forall|i: int| 0 <= i < a.len() implies same_node((#[trigger] a[i]).1, b[i].1) by {
        assert(node_paths(a)[i] == a[i].0@);
        assert(node_paths(b)[i] == b[i].0@);
        let sets = node_sets(nodes, a[i].0@, opts);
        let x = a[i].1;
        let y = b[i].1;
        assert(x.says(sets) && y.says(sets));
        ascending_unique(texts(x.dependencies@), texts(y.dependencies@));
        ascending_unique(texts(x.dependents@), texts(y.dependents@));
        lemma_same_optional(x.effective_dependencies, y.effective_dependencies, sets.effective_dependencies);
        lemma_same_optional(x.effective_dependents, y.effective_dependents, sets.effective_dependents);
        lemma_same_optional(x.external_dependencies, y.external_dependencies, sets.external_dependencies);
    }
}

/// The table that the graph of some scans is read off, with what they are
/// resolved against but for the Java files among them.
pub open spec fn graph_table(world: World, scans: Seq<ScanView>) -> Map<Text, BuildView> {
    settled_table(
        built_table(
            world_of(world.root, world.packages, world.configs, world.disk, scans),
            scans,
        ),
    )
}

/// The graph is a function of the source tree: the same files with the same
/// texts under the same root, resolved against the same packages, path mappings
/// and disk, give the same nodes, in locales that agree on every text.
pub proof fn same_sources_same_graph(
    a: Seq<(String, Node)>,
    b: Seq<(String, Node)>,
    scans_a: Seq<ScanView>,
    scans_b: Seq<ScanView>,
    locales_a: Seq<Locale>,
    locales_b: Seq<Locale>,
    files: Seq<FileView>,
    srcs: Seq<Text>,
    world: World,
    opts: GraphOptions,
)
    requires
        scans_a.len() == files.len(),
        scans_b.len() == files.len(),
        forall|i: int|
            0 <= i < files.len() ==> #[trigger] scans_a[i] == scan_in(
                locales_a[i],
                world.root,
                files[i],
                srcs[i],
            ),
        forall|i: int|
            0 <= i < files.len() ==> #[trigger] scans_b[i] == scan_in(
                locales_b[i],
                world.root,
                files[i],
                srcs[i],
            ),
        forall|i: int|
            0 <= i < files.len() ==> locales_agree(
                locales_a[i],
                locales_b[i],
                grammar_of(#[trigger] files[i]),
                srcs[i],
            ),
        is_graph_of(a, graph_table(world, scans_a), opts),
        is_graph_of(b, graph_table(world, scans_b), opts),
    ensures
        node_paths(a) == node_paths(b),
        forall|i: int| 0 <= i < a.len() ==> same_node((#[trigger] a[i]).1, b[i].1),
{
    assert forall|i: int| 0 <= i < files.len() implies scans_a[i] == scans_b[i] by {
        assert(locales_agree(locales_a[i], locales_b[i], grammar_of(files[i]), srcs[i]));
        same_text_same_scan(locales_a[i], locales_b[i], world.root, files[i], srcs[i]);
    }
    assert(scans_a =~= scans_b);
    graph_is_determined(a, b, graph_table(world, scans_a), opts);
}

/// Of Java, Python, and text in ASCII the graph is a function of the source tree
/// in any locale.
pub proof fn plain_sources_same_graph(
    a: Seq<(String, Node)>,
    b: Seq<(String, Node)>,
    scans_a: Seq<ScanView>,
    scans_b: Seq<ScanView>,
    files: Seq<FileView>,
    srcs: Seq<Text>,
    world: World,
    opts: GraphOptions,
)
    requires
        scans_a.len() == files.len(),
        scans_b.len() == files.len(),
        forall|i: int| 0 <= i < files.len() ==> reads_alike(grammar_of(#[trigger] files[i]), srcs[i]),
        forall|i: int|
            0 <= i < files.len() ==> is_scan(#[trigger] scans_a[i], world.root, files[i], srcs[i]),
        forall|i: int|
            0 <= i < files.len() ==> is_scan(#[trigger] scans_b[i], world.root, files[i], srcs[i]),
        is_graph_of(a, graph_table(world, scans_a), opts),
        is_graph_of(b, graph_table(world, scans_b), opts),
    ensures
        node_paths(a) == node_paths(b),
        forall|i: int| 0 <= i < a.len() ==> same_node((#[trigger] a[i]).1, b[i].1),
{
    let locales_a = Seq::new(
        files.len(),
        |i: int|
            choose|locale: Locale| scans_a[i] == #[trigger] scan_in(locale, world.root, files[i], srcs[i]),
    );
    let locales_b = Seq::new(
        files.len(),
        |i: int|
            choose|locale: Locale| scans_b[i] == #[trigger] scan_in(locale, world.root, files[i], srcs[i]),
    );
    assert forall|i: int| 0 <= i < files.len() implies #[trigger] scans_a[i] == scan_in(
        locales_a[i],
        world.root,
        files[i],
        srcs[i],
    ) by {
        assert(is_scan(scans_a[i], world.root, files[i], srcs[i]));
    }
    assert forall|i: int| 0 <= i < files.len() implies #[trigger] scans_b[i] == scan_in(
        locales_b[i],
        world.root,
        files[i],
        srcs[i],
    ) by {
        assert(is_scan(scans_b[i], world.root, files[i], srcs[i]));
    }
    assert forall|i: int| 0 <= i < files.len() implies locales_agree(
        locales_a[i],
        locales_b[i],
        grammar_of(#[trigger] files[i]),
        srcs[i],
    ) by {
        locales_agree_on_plain_text(locales_a[i], locales_b[i], grammar_of(files[i]), srcs[i]);
    }
    same_sources_same_graph(a, b, scans_a, scans_b, locales_a, locales_b, files, srcs, world, opts);
}

/// What is left out on request is nowhere in the graph: where the scans are those
/// of collected files, no file of the graph, and none that a node names, is
/// excluded.
pub proof fn excluded_files_stay_out(
    paths: Seq<Text>,
    patterns: Seq<Text>,
    files: Seq<FileView>,
    srcs: Seq<Text>,
    scans: Seq<ScanView>,
    world: World,
    opts: GraphOptions,
    rel: Text,
    other: Text,
)
    requires
        is_sorted_list(paths.filter_map(source_file(world.root, patterns)), files),
        scans.len() == files.len(),
        forall|i: int|
            0 <= i < files.len() ==> is_scan(#[trigger] scans[i], world.root, files[i], srcs[i]),
        shown(graph_table(world, scans), opts).contains(rel),
    ensures
        !excluded(patterns, rel),
        ({
            let sets = node_sets(graph_table(world, scans), rel, opts);
            &&& sets.dependencies.contains(other) ==> !excluded(patterns, other)
            &&& sets.dependents.contains(other) ==> !excluded(patterns, other)
            &&& opts.include_barrels && sets.effective_dependencies->0.contains(other) ==> !excluded(
                patterns,
                other,
            )
            &&& opts.include_barrels && sets.effective_dependents->0.contains(other) ==> !excluded(
                patterns,
                other,
            )
        }),
{
    let whole = world_of(world.root, world.packages, world.configs, world.disk, scans);
    let nodes = built_table(whole, scans);
    graph_is_closed(nodes, opts, rel, other);
    assert forall|path: Text| shown(graph_table(world, scans), opts).contains(path) implies !excluded(
        patterns,
        path,
    ) by {
        every_file_has_a_node(whole, scans, path);
        let i = choose|i: int| 0 <= i < scans.len() && (#[trigger] scans[i]).rel == path;
        scan_knows_its_file(scans[i], world.root, files[i], srcs[i]);
        collected_files_are_wanted(world.root, paths, patterns, files, i);
    }
}

proof fn lemma_same_optional(a: Option<Vec<String>>, b: Option<Vec<String>>, set: Option<Set<Text>>)
    requires
        lists_optional(a, set),
        lists_optional(b, set),
    ensures
        same_optional(a, b),
{
    if let Some(x) = a {
        if let Some(y) = b {
            ascending_unique(texts(x@), texts(y@));
        }
    }
}

} // verus!
