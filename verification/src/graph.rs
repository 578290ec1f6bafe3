//! From the facts of every file to the graph.
use vstd::prelude::*;
use vstd::hash_map::StringHashMap;

use crate::disk::Disk;
use crate::effective::{effective, effective_of};
use crate::facts::Facts;
use crate::lang::java::{empty_index, java_facts, with_file, IndexView, JavaIndex};
use crate::lang::js_pkg::{JsPackageIndex, PackageView};
use crate::lang::js_ts::linked;
use crate::lang::python::module_facts;
use crate::lang::specifier::Scope;
use crate::lang::ts_paths::{ConfigView, TsPathsIndex};
use crate::model::{node_paths, Graph, Node, NodeSets};
use crate::nodes::{
    build_view, find_places, insert_node, lemma_places, lemma_table_at, lemma_table_eq, make_build_node,
        nodes_wf,
    places_of, prune_all, prune_nodes, refine_all, refine_nodes, rels, table, BuildNode, BuildView,
};
use crate::order::{lemma_filter_ascending, lists, TextSet};
use crate::scan::{scan_views, Contents, ContentsView, FileScan, ScanView};
use crate::text::{texts, Text};

verus! {

/// What the graph keeps of a file.
#[derive(Clone, Copy, Debug)]
pub struct GraphOptions {
    /// Keep the external dependencies of each node.
    pub include_external: bool,
    /// Keep barrel files as nodes. Where they are dropped, the dependencies
    /// of the other nodes skip through them to the files behind.
    pub include_barrels: bool,
}

impl Default for GraphOptions {
    fn default() -> (r: GraphOptions)
        ensures
            !r.include_external,
            !r.include_barrels,
    {
        GraphOptions { include_external: false, include_barrels: false }
    }
}

/// The table of the graph: references to files without a node are dropped,
/// then the wildcard targets are looked into.
pub open spec fn settled_table(nodes: Map<Text, BuildView>) -> Map<Text, BuildView> {
    refine_all(prune_all(nodes))
}

/// The files that depend on `rel`.
pub open spec fn dependents(nodes: Map<Text, BuildView>, rel: Text) -> Set<Text> {
    Set::new(|r: Text| nodes.contains_key(r) && nodes[r].dependencies.contains(rel))
}

/// The files that depend on `rel` effectively.
pub open spec fn effective_dependents(nodes: Map<Text, BuildView>, rel: Text) -> Set<Text> {
    Set::new(|r: Text| nodes.contains_key(r) && effective(nodes, r).contains(rel))
}

/// The files that get a node: all of them, or all but the barrels.
pub open spec fn shown(nodes: Map<Text, BuildView>, opts: GraphOptions) -> Set<Text> {
    Set::new(|r: Text| nodes.contains_key(r) && (opts.include_barrels || !nodes[r].is_barrel))
}

/// What the graph says of `rel`.
pub open spec fn node_sets(nodes: Map<Text, BuildView>, rel: Text, opts: GraphOptions) -> NodeSets {
    let node = nodes[rel];
    let external_dependencies = if opts.include_external {
        Some(node.external_dependencies)
    } else {
        None
    };
    if opts.include_barrels {
        NodeSets {
            hash: node.hash,
            is_barrel: Some(node.is_barrel),
            exports: node.exports,
            dependencies: node.dependencies,
            dependents: dependents(nodes, rel),
            effective_dependencies: Some(effective(nodes, rel)),
            effective_dependents: Some(effective_dependents(nodes, rel)),
            external_dependencies,
        }
    } else {
        NodeSets {
            hash: node.hash,
            is_barrel: None,
            exports: node.exports,
            dependencies: effective(nodes, rel),
            dependents: effective_dependents(nodes, rel).intersect(shown(nodes, opts)),
            effective_dependencies: None,
            effective_dependents: None,
            external_dependencies,
        }
    }
}

/// Whether a list of nodes is the graph of a table: the shown files in order,
/// each saying what the table gives.
pub open spec fn is_graph_of(
    list: Seq<(String, Node)>,
    nodes: Map<Text, BuildView>,
    opts: GraphOptions,
) -> bool {
    &&& lists(node_paths(list), shown(nodes, opts))
    &&& forall|i: int|
        0 <= i < list.len() ==> (#[trigger] list[i]).1.says(node_sets(nodes, list[i].0@, opts))
}

/// For every node the nodes whose set names it.
fn reverse_sets(nodes: &Vec<BuildNode>, places: &StringHashMap<usize>, sets: &Vec<TextSet>) -> (r:
    Vec<TextSet>)
    requires
        nodes_wf(nodes@),
        places_of(nodes@, places@),
        sets@.len() == nodes@.len(),
    ensures
        r@.len() == nodes@.len(),
        forall|k: int| 0 <= k < r@.len() ==> (#[trigger] r@[k]).wf(),
        forall|k: int, from: Text|
            0 <= k < r@.len() ==> ((#[trigger] r@[k]@.contains(from)) <==> exists|x: int|
                0 <= x < nodes@.len() && (#[trigger] nodes@[x]).rel@ == from && sets@[x]@.contains(
                    nodes@[k].rel@,
                )),
{
    let mut r: Vec<TextSet> = Vec::new();
    let mut i: usize = 0;
    while i < nodes.len()
        invariant
            i <= nodes@.len(),
            r@.len() == i,
            forall|k: int| 0 <= k < i ==> (#[trigger] r@[k]).wf() && r@[k]@ == Set::<Text>::empty(),
        decreases nodes@.len() - i,
    {
        r.push(TextSet::new());
        i = i + 1;
    }
    i = 0;
    while i < nodes.len()
        invariant
            i <= nodes@.len(),
            nodes_wf(nodes@),
            places_of(nodes@, places@),
            sets@.len() == nodes@.len(),
            r@.len() == nodes@.len(),
            forall|k: int| 0 <= k < r@.len() ==> (#[trigger] r@[k]).wf(),
            forall|k: int, from: Text|
                0 <= k < r@.len() ==> ((#[trigger] r@[k]@.contains(from)) <==> exists|x: int|
                    0 <= x < i && (#[trigger] nodes@[x]).rel@ == from && sets@[x]@.contains(
                        nodes@[k].rel@,
                    )),
        decreases nodes@.len() - i,
    {
        let ghost was = r@;
        let ghost here = nodes@[i as int].rel@;
        let items = &sets[i].items;
        let ghost all = texts(items@);
        let mut j: usize = 0;
        while j < items.len()
            invariant
                i < nodes@.len(),
                here == nodes@[i as int].rel@,
                all == texts(items@),
                j <= items@.len(),
                places_of(nodes@, places@),
                r@.len() == nodes@.len(),
                was.len() == nodes@.len(),
                forall|k: int| 0 <= k < r@.len() ==> (#[trigger] r@[k]).wf(),
                forall|k: int, from: Text|
                    0 <= k < r@.len() ==> ((#[trigger] r@[k]@.contains(from)) <==> was[k]@.contains(
                        from,
                    ) || (from == here && all.take(j as int).contains(nodes@[k].rel@))),
            decreases items@.len() - j,
        {
            let ghost mid = r@;
            let ghost d = all[j as int];
            let ghost seen = all.take(j as int);
            let ghost more = all.take(j + 1);
            assert(more =~= seen.push(d));
            match places.get(items[j].as_str()) {
                Some(q) => {
                    let q: usize = *q;
                    r[q].insert(nodes[i].rel.clone());
                    assert(r@ =~= mid.update(q as int, r@[q as int]));
                    assert(nodes@[q as int].rel@ == d);
                },
                None => {},
            }
            proof {
                assert forall|k: int, from: Text| 0 <= k < r@.len() implies ((
                #[trigger] r@[k]@.contains(from)) <==> was[k]@.contains(from) || (from == here
                    && more.contains(nodes@[k].rel@))) by {
                    vstd::seq_lib::lemma_seq_contains_after_push(seen, d, nodes@[k].rel@);
                    assert(mid[k]@.contains(from) <==> was[k]@.contains(from) || (from == here
                        && seen.contains(nodes@[k].rel@)));
                    assert(places@[nodes@[k].rel@] == k);
                }
            }
            j = j + 1;
        }
        proof {
            assert(all.take(all.len() as int) =~= all);
            assert forall|k: int, from: Text| 0 <= k < r@.len() implies ((
            #[trigger] r@[k]@.contains(from)) <==> exists|x: int|
                0 <= x < i + 1 && (#[trigger] nodes@[x]).rel@ == from && sets@[x]@.contains(
                    nodes@[k].rel@,
                )) by {
                assert(was[k]@.contains(from) <==> exists|x: int|
                    0 <= x < i && (#[trigger] nodes@[x]).rel@ == from && sets@[x]@.contains(
                        nodes@[k].rel@,
                    ));
                if r@[k]@.contains(from) && !was[k]@.contains(from) {
                    assert(nodes@[i as int].rel@ == from);
                }
            }
        }
        i = i + 1;
    }
    r
}

/// The members of `set` that are not barrels.
fn without_barrels(nodes: &Vec<BuildNode>, places: &StringHashMap<usize>, set: &TextSet) -> (r:
    TextSet)
    requires
        nodes_wf(nodes@),
        places_of(nodes@, places@),
    ensures
        r.wf(),
        r@ == set@.filter(|p: Text| table(nodes@).contains_key(p) && !table(nodes@)[p].is_barrel),
{
    let ghost tab = table(nodes@);
    let ghost all = texts(set.items@);
    let mut r = TextSet::new();
    let mut i: usize = 0;
    while i < set.items.len()
        invariant
            nodes_wf(nodes@),
            places_of(nodes@, places@),
            tab == table(nodes@),
            all == texts(set.items@),
            i <= set.items@.len(),
            r.wf(),
            forall|p: Text| #[trigger]
                r@.contains(p) <==> all.take(i as int).contains(p) && tab.contains_key(p) && !tab[p].is_barrel,
        decreases set.items@.len() - i,
    {
        let ghost d = all[i as int];
        let ghost seen = all.take(i as int);
        let ghost more = all.take(i + 1);
        proof {
            assert(more =~= seen.push(d));
            assert forall|p: Text| more.contains(p) <==> seen.contains(p) || p == d by {
                vstd::seq_lib::lemma_seq_contains_after_push(seen, d, p);
            }
            lemma_places(nodes@, places@, d);
        }
        match places.get(set.items[i].as_str()) {
            Some(q) => {
                if !nodes[*q].is_barrel {
                    r.insert(set.items[i].clone());
                }
            },
            None => {},
        }
        i = i + 1;
    }
    assert(all.take(all.len() as int) =~= all);
    assert(r@ =~= set@.filter(|p: Text| tab.contains_key(p) && !tab[p].is_barrel));
    r
}

/// Takes the set at `i` out of a list.
fn take_set(sets: &mut Vec<TextSet>, i: usize) -> (r: TextSet)
    requires
        i < old(sets)@.len(),
    ensures
        r == old(sets)@[i as int],
        final(sets)@.len() == old(sets)@.len(),
        forall|k: int| 0 <= k < final(sets)@.len() && k != i ==> #[trigger] final(sets)@[k] == old(sets)@[k],
{
    let mut r = TextSet::new();
    std::mem::swap(&mut r, &mut sets[i]);
    r
}

/// The graph of the files.
pub fn assemble(
    nodes: Vec<BuildNode>,
    root: String,
    generated_at: String,
    opts: &GraphOptions,
) -> (r: Graph)
    requires
        nodes_wf(nodes@),
    ensures
        r.wf(),
        r.root@ == root@,
        r.generated_at@ == generated_at@,
        is_graph_of(r.nodes@, settled_table(table(nodes@)), *opts),
{
    let ghost tab = settled_table(table(nodes@));
    let mut nodes = prune_nodes(nodes);
    let places = find_places(&nodes);
    refine_nodes(&mut nodes, &places);
    assert(table(nodes@) == tab);
    let count = nodes.len();
    let mut direct: Vec<TextSet> = Vec::new();
    let mut reached: Vec<TextSet> = Vec::new();
    let mut i: usize = 0;
    while i < count
        invariant
            i <= count,
            count == nodes@.len(),
            nodes_wf(nodes@),
            places_of(nodes@, places@),
            tab == table(nodes@),
            direct@.len() == i,
            reached@.len() == i,
            forall|k: int| 0 <= k < i ==>
                (#[trigger] direct@[k]).wf() && direct@[k]@ == nodes@[k]@.dependencies,
            forall|k: int| 0 <= k < i ==>
                (#[trigger] reached@[k]).wf() && reached@[k]@ == effective(tab, nodes@[k].rel@),
        decreases count - i,
    {
        direct.push(nodes[i].dependencies.copy());
        reached.push(effective_of(&nodes, &places, i));
        i = i + 1;
    }
    let mut direct_by = reverse_sets(&nodes, &places, &direct);
    let mut reached_by = reverse_sets(&nodes, &places, &reached);
    proof {
        assert forall|k: int| 0 <= k < count implies (#[trigger] direct_by@[k])@ == dependents(tab,
            nodes@[k].rel@) by {
            assert forall|from: Text| direct_by@[k]@.contains(from)
                <==> dependents(tab, nodes@[k].rel@).contains(from) by {
                if direct_by@[k]@.contains(from) {
                    let x = choose|x: int| 0 <= x < nodes@.len()
                        && (#[trigger] nodes@[x]).rel@ == from && direct@[x]@.contains(nodes@[k].rel@);
                    lemma_table_at(nodes@, x);
                }
                if tab.contains_key(from) {
                    let x = rels(nodes@).index_of(from);
                    assert(rels(nodes@)[x] == from);
                    lemma_table_at(nodes@, x);
                    assert(nodes@[x].rel@ == from);
                }
            }
            assert(direct_by@[k]@ =~= dependents(tab, nodes@[k].rel@));
        }
        assert forall|k: int| 0 <= k < count implies (#[trigger] reached_by@[k])@ == effective_dependents(tab, nodes@[k].rel@) by {
            assert forall|from: Text| reached_by@[k]@.contains(from)
                <==> effective_dependents(tab, nodes@[k].rel@).contains(from) by {
                if reached_by@[k]@.contains(from) {
                    let x = choose|x: int| 0 <= x < nodes@.len()
                        && (#[trigger] nodes@[x]).rel@ == from && reached@[x]@.contains(nodes@[k].rel@);
                    lemma_table_at(nodes@, x);
                }
                if tab.contains_key(from) {
                    let x = rels(nodes@).index_of(from);
                    assert(rels(nodes@)[x] == from);
                    lemma_table_at(nodes@, x);
                    assert(nodes@[x].rel@ == from);
                }
            }
            assert(reached_by@[k]@ =~= effective_dependents(tab, nodes@[k].rel@));
        }
    }
    let mut kept_by: Vec<TextSet> = Vec::new();
    i = 0;
    while i < count
        invariant
            i <= count,
            count == nodes@.len(),
            nodes_wf(nodes@),
            places_of(nodes@, places@),
            tab == table(nodes@),
            forall|k: int| 0 <= k < count ==>
                (#[trigger] reached_by@[k])@ == effective_dependents(tab, nodes@[k].rel@),
            reached_by@.len() == count,
            kept_by@.len() == i,
            forall|k: int| 0 <= k < i ==>
                (#[trigger] kept_by@[k]).wf()
                && kept_by@[k]@ == effective_dependents(tab,
                nodes@[k].rel@).filter(|p: Text| tab.contains_key(p) && !tab[p].is_barrel),
        decreases count - i,
    {
        kept_by.push(without_barrels(&nodes, &places, &reached_by[i]));
        i = i + 1;
    }
    let ghost all = nodes@;
    let ghost pick = |p: Text| shown(tab, *opts).contains(p);
    let mut list: Vec<(String, Node)> = Vec::new();
    let mut at: usize = 0;
    assert(node_paths(list@) =~= rels(all).take(0).filter(pick)) by {
        reveal(Seq::filter);
    }
    for node in it: nodes
        invariant
            it.seq() == all,
            at == it.index(),
            count == all.len(),
            nodes_wf(all),
            tab == table(all),
            pick == (|p: Text| shown(tab, *opts).contains(p)),
            direct_by@.len() == count,
            reached@.len() == count,
            reached_by@.len() == count,
            kept_by@.len() == count,
            forall|k: int| at <= k < count ==>
                (#[trigger] reached@[k]).wf() && reached@[k]@ == effective(tab, all[k].rel@),
            forall|k: int| at <= k < count ==>
                (#[trigger] direct_by@[k]).wf() && direct_by@[k]@ == dependents(tab, all[k].rel@),
            forall|k: int| at <= k < count ==>
                (#[trigger] reached_by@[k]).wf()
                && reached_by@[k]@ == effective_dependents(tab, all[k].rel@),
            forall|k: int| at <= k < count ==>
                (#[trigger] kept_by@[k]).wf()
                && kept_by@[k]@ == effective_dependents(tab,
                all[k].rel@).filter(|p: Text| tab.contains_key(p) && !tab[p].is_barrel),
            forall|x: int| 0 <= x < list@.len() ==>
                (#[trigger] list@[x]).1.says(node_sets(tab, list@[x].0@, *opts)),
            node_paths(list@) == rels(all).take(at as int).filter(pick),
    {
        let ghost k = at as int;
        let ghost rel = all[k].rel@;
        let ghost so_far = list@;
        proof {
            lemma_table_at(all, k);
            assert(rels(all).take(k + 1) =~= rels(all).take(k).push(rel));
            rels(all).take(k).lemma_filter_push(rel, pick);
        }
        let eff = take_set(&mut reached, at);
        let by = take_set(&mut direct_by, at);
        let eff_by = take_set(&mut reached_by, at);
        let kept = take_set(&mut kept_by, at);
        at = at + 1;
        if opts.include_barrels || !node.is_barrel {
            let external_dependencies = if opts.include_external {
                Some(node.external_dependencies.items)
            } else {
                None
            };
            let entry = if opts.include_barrels {
                Node {
                    hash: node.hash,
                    is_barrel: Some(node.is_barrel),
                    exports: node.exports,
                    dependencies: node.dependencies.items,
                    dependents: by.items,
                    effective_dependencies: Some(eff.items),
                    effective_dependents: Some(eff_by.items),
                    external_dependencies,
                }
            } else {
                assert(kept@ =~= effective_dependents(tab, rel).intersect(shown(tab, *opts)));
                Node {
                    hash: node.hash,
                    is_barrel: None,
                    exports: node.exports,
                    dependencies: eff.items,
                    dependents: kept.items,
                    effective_dependencies: None,
                    effective_dependents: None,
                    external_dependencies,
                }
            };
            assert(entry.says(node_sets(tab, rel, *opts)));
            list.push((node.rel, entry));
            assert(node_paths(list@) =~= node_paths(so_far).push(rel));
        }
    }
    proof {
        assert(rels(all).take(all.len() as int) =~= rels(all));
        lemma_filter_ascending(rels(all), pick);
        let paths = node_paths(list@);
        assert forall|p: Text| paths.to_set().contains(p) <==> shown(tab, *opts).contains(p) by {
            if paths.contains(p) {
                let x = choose|x: int| 0 <= x < paths.len() && paths[x] == p;
                rels(all).lemma_filter_pred(pick, x);
            }
            if shown(tab, *opts).contains(p) {
                let x = rels(all).index_of(p);
                assert(rels(all)[x] == p);
                rels(all).lemma_filter_contains(pick, x);
            }
        }
        assert(paths.to_set() =~= shown(tab, *opts));
    }
    Graph { root, generated_at, nodes: list }
}

/// What source files are resolved against: the scanned root, the packages,
/// the configs and the Java types of the source tree, and the files on disk.
#[verifier::ext_equal]
pub struct World {
    pub root: Text,
    pub packages: Map<Text, PackageView>,
    pub configs: Seq<ConfigView>,
    pub index: IndexView,
    pub disk: Map<Text, Option<Text>>,
}

/// What the specifiers of a source file are resolved against.
pub open spec fn scope_of(world: World, scan: ScanView) -> Scope {
    Scope { root: world.root, dir: scan.dir, packages: world.packages, configs: world.configs }
}

/// The Java types and packages of some source files.
pub open spec fn java_index(scans: Seq<ScanView>) -> IndexView
    decreases scans.len(),
{
    if scans.len() == 0 {
        empty_index()
    } else {
        let before = java_index(scans.drop_last());
        match scans.last().contents {
            ContentsView::Java { header, .. } => with_file(before, scans.last().rel, header),
            _ => before,
        }
    }
}

/// What a source file comes to.
pub open spec fn facts_of(world: World, scan: ScanView) -> Facts {
    match scan.contents {
        ContentsView::Java { header, imports } => java_facts(
            imports,
            header.types,
            scan.rel,
            world.index,
        ),
        ContentsView::Python(m) => module_facts(m, world.disk, world.root, scan.dir, scan.rel),
        ContentsView::Script(s) => linked(s, scope_of(world, scan), world.disk),
    }
}

/// Whether a source file is written in Java.
pub open spec fn is_java(scan: ScanView) -> bool {
    scan.contents is Java
}

/// The node of a source file. One that re-exports and exports nothing of its
/// own is a barrel; no Java file is.
pub open spec fn node_of(world: World, scan: ScanView) -> BuildView {
    let facts = facts_of(world, scan);
    build_view(
        scan.hash,
        facts,
        scan.rel,
        !is_java(scan) && facts.has_reexports && !facts.has_local_exports,
    )
}

/// The nodes once those of some source files are among them: of the Java files
/// or of the others.
pub open spec fn with_nodes(
    nodes: Map<Text, BuildView>,
    world: World,
    scans: Seq<ScanView>,
    java: bool,
) -> Map<Text, BuildView>
    decreases scans.len(),
{
    if scans.len() == 0 {
        nodes
    } else {
        let before = with_nodes(nodes, world, scans.drop_last(), java);
        if is_java(scans.last()) == java {
            before.insert(scans.last().rel, node_of(world, scans.last()))
        } else {
            before
        }
    }
}

/// The nodes of some source files, the Java files first.
pub open spec fn built_table(world: World, scans: Seq<ScanView>) -> Map<Text, BuildView> {
    with_nodes(with_nodes(Map::empty(), world, scans, true), world, scans, false)
}

/// What some source files are resolved against.
pub open spec fn world_of(
    root: Text,
    packages: Map<Text, PackageView>,
    configs: Seq<ConfigView>,
    disk: Map<Text, Option<Text>>,
    scans: Seq<ScanView>,
) -> World {
    World { root, packages, configs, index: java_index(scans), disk }
}

/// The node of a source file.
fn make_node(
    scan: &FileScan,
    root: &str,
    pkg_index: &JsPackageIndex,
    ts_paths_index: &TsPathsIndex,
    index: &JavaIndex,
    disk: &Disk,
) -> (r: BuildNode)
    ensures
        r.wf(),
        r.rel@ == scan.rel@,
        r@ == node_of(
            (World {
                root: root@,
                packages: pkg_index@,
                configs: ts_paths_index@,
                index: index@,
                disk: disk@,
            }),
            scan@,
        ),
{
    match &scan.contents {
        Contents::Java { header, imports } => {
            let facts = crate::lang::java::resolve(
                imports.as_slice(),
                header.types.as_slice(),
                scan.rel.as_str(),
                index,
            );
            make_build_node(scan.hash.clone(), facts, scan.rel.as_str(), false)
        },
        Contents::Python(m) => {
            let facts = crate::lang::python::link(m, root, scan.dir.as_str(), scan.rel.as_str(), disk);
            let is_barrel = facts.has_reexports && !facts.has_local_exports;
            make_build_node(scan.hash.clone(), facts, scan.rel.as_str(), is_barrel)
        },
        Contents::Script(s) => {
            let facts = crate::lang::js_ts::link(
                s,
                root,
                scan.dir.as_str(),
                pkg_index,
                ts_paths_index,
                disk,
            );
            let is_barrel = facts.has_reexports && !facts.has_local_exports;
            make_build_node(scan.hash.clone(), facts, scan.rel.as_str(), is_barrel)
        },
    }
}

/// The Java types and packages of some source files.
fn index_java(scans: &Vec<FileScan>) -> (r: JavaIndex)
    ensures
        r@ == java_index(scan_views(scans@)),
{
    let ghost all = scan_views(scans@);
    let mut index = JavaIndex::default();
    let mut i: usize = 0;
    assert(index@ == java_index(all.take(0)));
    while i < scans.len()
        invariant
            i <= scans@.len(),
            all == scan_views(scans@),
            index@ == java_index(all.take(i as int)),
        decreases scans@.len() - i,
    {
        assert(all.take(i + 1).drop_last() =~= all.take(i as int));
        assert(all.take(i + 1).last() == scans@[i as int]@);
        if let Contents::Java { header, .. } = &scans[i].contents {
            index.add(scans[i].rel.as_str(), header);
        }
        i = i + 1;
    }
    assert(all.take(all.len() as int) =~= all);
    index
}

/// Whether a source file is written in Java.
fn is_java_file(scan: &FileScan) -> (r: bool)
    ensures
        r == is_java(scan@),
{
    match &scan.contents {
        Contents::Java { .. } => true,
        _ => false,
    }
}

/// Adds the nodes of the Java files or of the others.
fn add_nodes(
    nodes: &mut Vec<BuildNode>,
    scans: &Vec<FileScan>,
    java: bool,
    root: &str,
    pkg_index: &JsPackageIndex,
    ts_paths_index: &TsPathsIndex,
    index: &JavaIndex,
    disk: &Disk,
)
    requires
        nodes_wf(old(nodes)@),
    ensures
        nodes_wf(final(nodes)@),
        table(final(nodes)@) == with_nodes(
            table(old(nodes)@),
            (World {
                root: root@,
                packages: pkg_index@,
                configs: ts_paths_index@,
                index: index@,
                disk: disk@,
            }),
            scan_views(scans@),
            java,
        ),
{
    let ghost world = World {
        root: root@,
        packages: pkg_index@,
        configs: ts_paths_index@,
        index: index@,
        disk: disk@,
    };
    let ghost all = scan_views(scans@);
    let ghost was = table(nodes@);
    let mut i: usize = 0;
    assert(table(nodes@) == with_nodes(was, world, all.take(0), java));
    while i < scans.len()
        invariant
            i <= scans@.len(),
            all == scan_views(scans@),
            world == (World {
                root: root@,
                packages: pkg_index@,
                configs: ts_paths_index@,
                index: index@,
                disk: disk@,
            }),
            nodes_wf(nodes@),
            table(nodes@) == with_nodes(was, world, all.take(i as int), java),
        decreases scans@.len() - i,
    {
        assert(all.take(i + 1).drop_last() =~= all.take(i as int));
        assert(all.take(i + 1).last() == scans@[i as int]@);
        if is_java_file(&scans[i]) == java {
            let node = make_node(&scans[i], root, pkg_index, ts_paths_index, index, disk);
            insert_node(nodes, node);
        }
        i = i + 1;
    }
    assert(all.take(all.len() as int) =~= all);
}

/// The graph of some source files.
pub fn build_graph(
    root: &str,
    scans: &Vec<FileScan>,
    pkg_index: &JsPackageIndex,
    ts_paths_index: &TsPathsIndex,
    disk: &Disk,
    generated_at: String,
    opts: &GraphOptions,
) -> (r: Graph)
    ensures
        r.wf(),
        r.root@ == root@,
        r.generated_at@ == generated_at@,
        is_graph_of(
            r.nodes@,
            settled_table(
                built_table(
                    world_of(root@, pkg_index@, ts_paths_index@, disk@, scan_views(scans@)),
                    scan_views(scans@),
                ),
            ),
            *opts,
        ),
{
    let index = index_java(scans);
    let mut nodes: Vec<BuildNode> = Vec::new();
    proof {
        lemma_table_eq(nodes@, Map::empty());
    }
    add_nodes(&mut nodes, scans, true, root, pkg_index, ts_paths_index, &index, disk);
    add_nodes(&mut nodes, scans, false, root, pkg_index, ts_paths_index, &index, disk);
    assemble(nodes, root.to_owned(), generated_at, opts)
}

} // verus!
