//! The files of a graph in the making.
use vstd::prelude::*;
use vstd::hash_map::StringHashMap;
use vstd::hash_set::StringHashSet;

use crate::facts::{edges, sources, targets, DepRef, Dependency, Edge, Facts, FileFacts, ImportWant,
    NameSource, Target, Want, Wanted};
use crate::order::{ascending, before, before_irreflexive, before_total, before_transitive, place, Place,
    TextSet};
use crate::text::{holds, same, texts, Text};

verus! {

/// Re-exported names and where they come from.
pub struct NameSources {
    pub names: Vec<String>,
    pub by_name: StringHashMap<NameSource>,
}

impl View for NameSources {
    type V = Map<Text, (Target, Want)>;

    open spec fn view(&self) -> Map<Text, (Target, Want)> {
        self.by_name@.map_values(|d: NameSource| d@)
    }
}

/// The map that a list of entries makes, a later entry replacing an earlier
/// one of the same name.
pub open spec fn source_map(list: Seq<(Text, (Target, Want))>) -> Map<Text, (Target, Want)>
    decreases list.len(),
{
    if list.len() == 0 {
        Map::empty()
    } else {
        source_map(list.drop_last()).insert(list.last().0, list.last().1)
    }
}

/// Whether a reference leads to a known file or out of the tree.
pub open spec fn live(target: Target, known: Set<Text>) -> bool {
    match target {
        Target::Internal(p) => known.contains(p),
        Target::External(_) => true,
    }
}

/// Whether a reference leads to a known file or out of the tree.
fn is_live(target: &DepRef, known: &StringHashSet) -> (r: bool)
    ensures
        r == live(target@, known@),
{
    match target {
        DepRef::Internal(p) => known.contains(p.as_str()),
        DepRef::External(_) => true,
    }
}

/// The entries of `m` whose references are live.
pub open spec fn live_sources(m: Map<Text, (Target, Want)>, known: Set<Text>) -> Map<
    Text,
    (Target, Want),
> {
    Map::new(|k: Text| m.contains_key(k) && live(m[k].0, known), |k: Text| m[k])
}

impl NameSources {
    /// Every key of the map is among the listed names.
    pub open spec fn wf(&self) -> bool {
        forall|k: Text| #[trigger] self.by_name@.contains_key(k) ==> texts(self.names@).contains(k)
    }

    fn new() -> (r: NameSources)
        ensures
            r.wf(),
            r@ == Map::<Text, (Target, Want)>::empty(),
    {
        let r = NameSources { names: Vec::new(), by_name: StringHashMap::new() };
        assert(r@ =~= Map::<Text, (Target, Want)>::empty());
        r
    }

    /// Makes `name` come from `source`, whatever it came from before.
    fn put(&mut self, name: String, source: NameSource)
        requires
            old(self).wf(),
        ensures
            final(self).wf(),
            final(self)@ == old(self)@.insert(name@, source@),
    {
        let ghost names = texts(self.names@);
        self.names.push(name.clone());
        assert(texts(self.names@) =~= names.push(name@));
        self.by_name.insert(name, source);
        assert(self@ =~= old(self)@.insert(name@, source@));
        assert forall|k: Text| #[trigger] self.by_name@.contains_key(k) implies texts(
            self.names@,
        ).contains(k) by {
            if k == name@ {
                assert(texts(self.names@)[names.len() as int] == k);
            } else {
                assert(names.contains(k));
                let i = choose|i: int| 0 <= i < names.len() && names[i] == k;
                assert(texts(self.names@)[i] == k);
            }
        }
    }

    /// Drops the entries whose references are not live.
    fn retain_live(&mut self, known: &StringHashSet)
        requires
            old(self).wf(),
        ensures
            final(self).wf(),
            final(self)@ == live_sources(old(self)@, known@),
    {
        let ghost was = self@;
        let mut i: usize = 0;
        while i < self.names.len()
            invariant
                i <= self.names@.len(),
                self.names@ == old(self).names@,
                was == old(self)@,
                self.wf(),
                forall|k: Text| #[trigger] self@.contains_key(k) ==> was.contains_key(k) && self@[k] == was[k],
                forall|k: Text| #[trigger] was.contains_key(k) && live(was[k].0, known@) ==>
                    self@.contains_key(k),
                forall|j: int| 0 <= j < i && self@.contains_key(#[trigger] texts(self.names@)[j]) ==>
                    live(was[texts(self.names@)[j]].0, known@),
            decreases self.names@.len() - i,
        {
            let ghost at = texts(self.names@)[i as int];
            let stale = match self.by_name.get(self.names[i].as_str()) {
                Some(source) => !is_live(&source.target, known),
                None => false,
            };
            if stale {
                let ghost m = self@;
                self.by_name.remove(self.names[i].as_str());
                assert(self@ =~= m.remove(at));
            }
            i = i + 1;
        }
        assert(self@ =~= live_sources(was, known@)) by {
            assert forall|k: Text| #[trigger] self@.contains_key(k) implies live(was[k].0, known@) by {
                assert(self.by_name@.contains_key(k));
                let j = choose|j: int| 0 <= j < texts(self.names@).len() && texts(self.names@)[j] == k;
                assert(self@.contains_key(texts(self.names@)[j]));
            }
        }
    }
}

/// A file of the graph in the making.
pub struct BuildNode {
    /// Path relative to the root.
    pub rel: String,
    pub hash: String,
    pub exports: Vec<String>,
    pub is_barrel: bool,
    /// The internal targets.
    pub dependencies: TextSet,
    /// The external targets.
    pub external_dependencies: TextSet,
    /// The internal targets again, each with the names that the edge needs.
    pub dependency_wants: Vec<(String, ImportWant)>,
    /// Re-exported names and where they come from.
    pub name_sources: NameSources,
    /// Targets that a name without a known source may come from.
    pub wildcard_fallbacks: Vec<DepRef>,
}

/// The view of a [`BuildNode`], but for its path.
#[verifier::ext_equal]
pub struct BuildView {
    pub hash: Text,
    pub exports: Seq<Text>,
    pub is_barrel: bool,
    pub dependencies: Set<Text>,
    pub external_dependencies: Set<Text>,
    pub dependency_wants: Seq<(Text, Wanted)>,
    pub name_sources: Map<Text, (Target, Want)>,
    pub wildcard_fallbacks: Seq<Target>,
}

/// The views of a list of wants.
pub open spec fn wants(list: Seq<(String, ImportWant)>) -> Seq<(Text, Wanted)> {
    list.map_values(|e: (String, ImportWant)| (e.0@, e.1@))
}

impl View for BuildNode {
    type V = BuildView;

    open spec fn view(&self) -> BuildView {
        BuildView {
            hash: self.hash@,
            exports: texts(self.exports@),
            is_barrel: self.is_barrel,
            dependencies: self.dependencies@,
            external_dependencies: self.external_dependencies@,
            dependency_wants: wants(self.dependency_wants@),
            name_sources: self.name_sources@,
            wildcard_fallbacks: targets(self.wildcard_fallbacks@),
        }
    }
}

impl BuildNode {
    /// The sets of the node are in order.
    pub open spec fn wf(&self) -> bool {
        &&& self.dependencies.wf()
        &&& self.external_dependencies.wf()
        &&& self.name_sources.wf()
    }
}

/// The edge as a path with the names needed, where it leads to another file
/// of the tree.
pub open spec fn internal_want(self_rel: Text) -> spec_fn(Edge) -> Option<(Text, Wanted)> {
    |e: Edge|
        match e.target {
            Target::Internal(p) => if p != self_rel {
                Some((p, e.want))
            } else {
                None
            },
            Target::External(_) => None,
        }
}

/// The specifier of an edge that leads out of the tree.
pub open spec fn external_name() -> spec_fn(Edge) -> Option<Text> {
    |e: Edge|
        match e.target {
            Target::Internal(_) => None,
            Target::External(s) => Some(s),
        }
}

/// The edges that lead to other files of the tree, in order.
pub open spec fn wants_of(deps: Seq<Edge>, self_rel: Text) -> Seq<(Text, Wanted)> {
    deps.filter_map(internal_want(self_rel))
}

/// The specifiers of the edges that lead out of the tree.
pub open spec fn externals_of(deps: Seq<Edge>) -> Set<Text> {
    deps.filter_map(external_name()).to_set()
}

/// The paths that a list of wants leads to.
pub open spec fn paths_of(list: Seq<(Text, Wanted)>) -> Set<Text> {
    list.map_values(|w: (Text, Wanted)| w.0).to_set()
}

proof fn lemma_paths_push(list: Seq<(Text, Wanted)>, w: (Text, Wanted))
    ensures
        paths_of(list.push(w)) == paths_of(list).insert(w.0),
{
    let f = |w: (Text, Wanted)| w.0;
    list.lemma_push_map_commute(f, w);
    list.map_values(f).lemma_push_to_set_commute(w.0);
}

/// Parts the edges of a file into internal targets, external targets, and the
/// internal targets with the names needed. An edge to the file itself counts
/// for nothing.
pub fn split_deps(deps: Vec<Dependency>, self_rel: &str) -> (r: (
    TextSet,
    TextSet,
    Vec<(String, ImportWant)>,
))
    ensures
        r.0.wf(),
        r.1.wf(),
        wants(r.2@) == wants_of(edges(deps@), self_rel@),
        r.0@ == paths_of(wants(r.2@)),
        r.1@ == externals_of(edges(deps@)),
{
    let ghost all = edges(deps@);
    let ghost f = internal_want(self_rel@);
    let ghost g = external_name();
    let mut internal = TextSet::new();
    let mut external = TextSet::new();
    let mut kept: Vec<(String, ImportWant)> = Vec::new();
    assert(all.take(0) =~= Seq::<Edge>::empty());
    assert(paths_of(wants(kept@)) =~= Set::<Text>::empty());
    assert(externals_of(all.take(0)) =~= Set::<Text>::empty());
    assert(wants(kept@) =~= wants_of(all.take(0), self_rel@));
    for d in it: deps
        invariant
            it.seq() == deps@,
            all == edges(deps@),
            f == internal_want(self_rel@),
            g == external_name(),
            internal.wf(),
            external.wf(),
            wants(kept@) == wants_of(all.take(it.index() as int), self_rel@),
            internal@ == paths_of(wants(kept@)),
            external@ == externals_of(all.take(it.index() as int)),
    {
        let ghost k = it.index() as int;
        let ghost e = all[k];
        let ghost kept_before = wants(kept@);
        let ghost ext_before = all.take(k).filter_map(g);
        proof {
            all.lemma_filter_map_take_succ(f, k);
            all.lemma_filter_map_take_succ(g, k);
            ext_before.lemma_push_to_set_commute(e.target->External_0);
        }
        match d.target {
            DepRef::Internal(p) => {
                if !same(p.as_str(), self_rel) {
                    internal.insert(p.clone());
                    let ghost w = (p@, d.want@);
                    kept.push((p, d.want));
                    assert(wants(kept@) =~= kept_before.push(w));
                    proof {
                        lemma_paths_push(kept_before, w);
                    }
                }
            },
            DepRef::External(s) => {
                external.insert(s);
            },
        }
        assert(ext_before + Seq::<Text>::empty() =~= ext_before);
        assert(kept_before + Seq::<(Text, Wanted)>::empty() =~= kept_before);
    }
    assert(all.take(all.len() as int) =~= all);
    (internal, external, kept)
}

/// The node that the facts of a file make.
pub open spec fn build_view(hash: Text, facts: Facts, self_rel: Text, is_barrel: bool) -> BuildView {
    let kept = wants_of(facts.dependencies, self_rel);
    BuildView {
        hash,
        exports: facts.exports,
        is_barrel,
        dependencies: paths_of(kept),
        external_dependencies: externals_of(facts.dependencies),
        dependency_wants: kept,
        name_sources: source_map(facts.name_sources),
        wildcard_fallbacks: facts.wildcard_fallbacks,
    }
}

/// Makes a node of the facts of a file.
pub fn make_build_node(hash: String, facts: FileFacts, self_rel: &str, is_barrel: bool) -> (r:
    BuildNode)
    ensures
        r.wf(),
        r.rel@ == self_rel@,
        r@ == build_view(hash@, facts@, self_rel@, is_barrel),
{
    let (internal, external, kept) = split_deps(facts.dependencies, self_rel);
    let ghost all = sources(facts.name_sources@);
    let mut named = NameSources::new();
    for e in it: facts.name_sources
        invariant
            it.seq() == facts.name_sources@,
            all == sources(facts.name_sources@),
            named.wf(),
            named@ == source_map(all.take(it.index() as int)),
    {
        assert(all.take(it.index() + 1).drop_last() =~= all.take(it.index() as int));
        named.put(e.0, e.1);
    }
    assert(all.take(all.len() as int) =~= all);
    let r = BuildNode {
        rel: self_rel.to_owned(),
        hash,
        exports: facts.exports,
        is_barrel,
        dependencies: internal,
        external_dependencies: external,
        dependency_wants: kept,
        name_sources: named,
        wildcard_fallbacks: facts.wildcard_fallbacks,
    };
    assert(r@ =~= build_view(hash@, facts@, self_rel@, is_barrel));
    r
}

/// Keeps the wants that lead to known files.
pub open spec fn known_want(known: Set<Text>) -> spec_fn((Text, Wanted)) -> bool {
    |w: (Text, Wanted)| known.contains(w.0)
}

/// Keeps the references that are live.
pub open spec fn live_target(known: Set<Text>) -> spec_fn(Target) -> bool {
    |t: Target| live(t, known)
}

/// A node without the references to files that are not known.
pub open spec fn prune(node: BuildView, known: Set<Text>) -> BuildView {
    BuildView {
        dependencies: node.dependencies.intersect(known),
        dependency_wants: node.dependency_wants.filter(known_want(known)),
        name_sources: live_sources(node.name_sources, known),
        wildcard_fallbacks: node.wildcard_fallbacks.filter(live_target(known)),
        ..node
    }
}

/// Drops the references to files that are not known.
pub fn prune_node(node: BuildNode, known: &StringHashSet) -> (r: BuildNode)
    requires
        node.wf(),
    ensures
        r.wf(),
        r.rel@ == node.rel@,
        r@ == prune(node@, known@),
{
    let ghost was = node@;
    let BuildNode {
        rel,
        hash,
        exports,
        is_barrel,
        dependencies: old_dependencies,
        external_dependencies,
        dependency_wants: old_wants,
        name_sources: old_sources,
        wildcard_fallbacks: old_fallbacks,
    } = node;
    let mut dependencies = TextSet::new();
    let ghost deps = texts(old_dependencies.items@);
    assert(deps.take(0).to_set().intersect(known@) =~= Set::<Text>::empty());
    for d in it: old_dependencies.items
        invariant
            it.seq() == old_dependencies.items@,
            deps == texts(old_dependencies.items@),
            dependencies.wf(),
            dependencies@ == deps.take(it.index() as int).to_set().intersect(known@),
    {
        let ghost k = it.index() as int;
        assert(deps.take(k + 1) =~= deps.take(k).push(d@));
        proof {
            deps.take(k).lemma_push_to_set_commute(d@);
        }
        if known.contains(d.as_str()) {
            dependencies.insert(d);
        }
        assert(dependencies@ =~= deps.take(k + 1).to_set().intersect(known@));
    }
    assert(deps.take(deps.len() as int) =~= deps);
    let mut dependency_wants: Vec<(String, ImportWant)> = Vec::new();
    let ghost all = wants(old_wants@);
    let ghost f = known_want(known@);
    assert(wants(dependency_wants@) =~= all.take(0).filter(f)) by {
        reveal(Seq::filter);
    }
    for w in it: old_wants
        invariant
            it.seq() == old_wants@,
            all == wants(old_wants@),
            f == known_want(known@),
            wants(dependency_wants@) == all.take(it.index() as int).filter(f),
    {
        let ghost k = it.index() as int;
        let ghost so_far = wants(dependency_wants@);
        let ghost x = all[k];
        assert(all.take(k + 1) =~= all.take(k).push(x));
        proof {
            all.take(k).lemma_filter_push(x, f);
        }
        if known.contains(w.0.as_str()) {
            dependency_wants.push(w);
            assert(wants(dependency_wants@) =~= so_far.push(x));
        }
    }
    assert(all.take(all.len() as int) =~= all);
    let mut name_sources = old_sources;
    name_sources.retain_live(known);
    let mut wildcard_fallbacks: Vec<DepRef> = Vec::new();
    let ghost refs = targets(old_fallbacks@);
    let ghost g = live_target(known@);
    assert(targets(wildcard_fallbacks@) =~= refs.take(0).filter(g)) by {
        reveal(Seq::filter);
    }
    for t in it: old_fallbacks
        invariant
            it.seq() == old_fallbacks@,
            refs == targets(old_fallbacks@),
            g == live_target(known@),
            targets(wildcard_fallbacks@) == refs.take(it.index() as int).filter(g),
    {
        let ghost k = it.index() as int;
        let ghost so_far = targets(wildcard_fallbacks@);
        let ghost x = refs[k];
        assert(refs.take(k + 1) =~= refs.take(k).push(x));
        proof {
            refs.take(k).lemma_filter_push(x, g);
        }
        if is_live(&t, known) {
            wildcard_fallbacks.push(t);
            assert(targets(wildcard_fallbacks@) =~= so_far.push(x));
        }
    }
    assert(refs.take(refs.len() as int) =~= refs);
    let r = BuildNode {
        rel,
        hash,
        exports,
        is_barrel,
        dependencies,
        external_dependencies,
        dependency_wants,
        name_sources,
        wildcard_fallbacks,
    };
    assert(r@ =~= prune(was, known@));
    r
}

/// The paths of a list of nodes.
pub open spec fn rels(nodes: Seq<BuildNode>) -> Seq<Text> {
    nodes.map_values(|n: BuildNode| n.rel@)
}

/// Whether the nodes stand in the order of their paths, each path once, and
/// their sets are in order.
pub open spec fn nodes_wf(nodes: Seq<BuildNode>) -> bool {
    &&& ascending(rels(nodes))
    &&& forall|i: int| 0 <= i < nodes.len() ==> (#[trigger] nodes[i]).wf()
}

/// The nodes by path.
pub open spec fn table(nodes: Seq<BuildNode>) -> Map<Text, BuildView> {
    Map::new(
        |k: Text| rels(nodes).contains(k),
        |k: Text| nodes[rels(nodes).index_of(k)]@,
    )
}

/// The table holds the node of each place under its path.
pub proof fn lemma_table_at(nodes: Seq<BuildNode>, i: int)
    requires
        ascending(rels(nodes)),
        0 <= i < nodes.len(),
    ensures
        table(nodes).contains_key(nodes[i].rel@),
        table(nodes)[nodes[i].rel@] == nodes[i]@,
        rels(nodes).index_of(nodes[i].rel@) == i,
{
    let k = nodes[i].rel@;
    assert(rels(nodes)[i] == k);
    let j = rels(nodes).index_of(k);
    assert(0 <= j < nodes.len() && rels(nodes)[j] == k);
    before_irreflexive(k);
    if j < i {
        assert(before(rels(nodes)[j], rels(nodes)[i]));
    } else if i < j {
        assert(before(rels(nodes)[i], rels(nodes)[j]));
    }
}

/// Tables are equal where they have the same paths and agree on each place.
pub proof fn lemma_table_eq(nodes: Seq<BuildNode>, m: Map<Text, BuildView>)
    requires
        ascending(rels(nodes)),
        forall|k: Text| #[trigger] m.contains_key(k) ==> rels(nodes).contains(k),
        forall|i: int|
            0 <= i < nodes.len() ==>
                m.contains_key((#[trigger] nodes[i]).rel@) && m[nodes[i].rel@] == nodes[i]@,
    ensures
        table(nodes) == m,
{
    assert forall|k: Text| rels(nodes).contains(k) implies m.contains_key(k) && table(nodes)[k]
        == m[k] by {
        let i = choose|i: int| 0 <= i < rels(nodes).len() && rels(nodes)[i] == k;
        lemma_table_at(nodes, i);
        assert(nodes[i].rel@ == k);
    }
    assert(table(nodes) =~= m);
}

/// Puts a node into its place, replacing a node of the same path.
pub fn insert_node(nodes: &mut Vec<BuildNode>, node: BuildNode)
    requires
        nodes_wf(old(nodes)@),
        node.wf(),
    ensures
        nodes_wf(final(nodes)@),
        table(final(nodes)@) == table(old(nodes)@).insert(node.rel@, node@),
{
    let ghost was = nodes@;
    let ghost all = rels(nodes@);
    let ghost key = node.rel@;
    let ghost view = node@;
    let mut lo: usize = 0;
    let mut hi: usize = nodes.len();
    while lo < hi
        invariant
            lo <= hi <= nodes@.len(),
            nodes@ == was,
            all == rels(was),
            ascending(all),
            key == node.rel@,
            forall|i: int| 0 <= i < lo ==> before(#[trigger] all[i], key),
            forall|i: int| hi <= i < all.len() ==> !before(#[trigger] all[i], key),
        decreases hi - lo,
    {
        let mid: usize = lo + (hi - lo) / 2;
        let at = place(nodes[mid].rel.as_str(), node.rel.as_str());
        assert(all[mid as int] == nodes@[mid as int].rel@);
        if at == Place::Before {
            assert forall|i: int| 0 <= i < mid + 1 implies before(#[trigger] all[i], key) by {
                if i < mid {
                    before_transitive(all[i], all[mid as int], key);
                }
            }
            lo = mid + 1;
        } else {
            assert forall|i: int| mid <= i < all.len() implies !before(#[trigger] all[i], key) by {
                if i > mid && before(all[i], key) {
                    before_transitive(all[mid as int], all[i], key);
                }
            }
            hi = mid;
        }
    }
    let ghost p = lo as int;
    let ghost m = table(was).insert(key, view);
    if lo < nodes.len() && same(nodes[lo].rel.as_str(), node.rel.as_str()) {
        assert(all[p] == key);
        nodes.set(lo, node);
        assert(rels(nodes@) =~= all);
        proof {
            assert forall|i: int| 0 <= i < nodes@.len() implies m.contains_key(
                (#[trigger] nodes@[i]).rel@,
            ) && m[nodes@[i].rel@] == nodes@[i]@ by {
                lemma_table_at(was, i);
                if i != p {
                    before_irreflexive(key);
                    assert(was[i].rel@ == all[i]);
                    if i < p {
                        assert(before(all[i], all[p]));
                    } else {
                        assert(before(all[p], all[i]));
                    }
                }
            }
            lemma_table_eq(nodes@, m);
        }
    } else {
        nodes.insert(lo, node);
        proof {
            let now = rels(nodes@);
            assert(now =~= all.insert(p, key));
            assert forall|i: int| p <= i < all.len() implies before(key, #[trigger] all[i]) by {
                before_total(all[i], key);
                if all[i] == key && i > p {
                    assert(before(all[p], all[i]));
                }
            }
            assert forall|i: int, j: int| 0 <= i < j < now.len() implies before(
                #[trigger] now[i],
                #[trigger] now[j],
            ) by {
                if j < p {
                    assert(now[i] == all[i] && now[j] == all[j]);
                } else if j == p {
                    assert(now[i] == all[i]);
                } else if i < p {
                    assert(now[i] == all[i] && now[j] == all[j - 1]);
                } else if i == p {
                    assert(now[j] == all[j - 1]);
                } else {
                    assert(now[i] == all[i - 1] && now[j] == all[j - 1]);
                }
            }
            before_irreflexive(key);
            assert forall|i: int| 0 <= i < nodes@.len() implies (#[trigger] nodes@[i]).wf()
                && m.contains_key(nodes@[i].rel@) && m[nodes@[i].rel@] == nodes@[i]@ by {
                if i < p {
                    assert(nodes@[i] == was[i]);
                    lemma_table_at(was, i);
                    assert(was[i].rel@ == all[i]);
                } else if i > p {
                    assert(nodes@[i] == was[i - 1]);
                    lemma_table_at(was, i - 1);
                    assert(was[i - 1].rel@ == all[i - 1]);
                }
            }
            assert forall|k: Text| #[trigger] m.contains_key(k) implies now.contains(k) by {
                if k == key {
                    assert(now[p] == k);
                } else {
                    let i = choose|i: int| 0 <= i < all.len() && all[i] == k;
                    if i < p {
                        assert(now[i] == k);
                    } else {
                        assert(now[i + 1] == k);
                    }
                }
            }
            lemma_table_eq(nodes@, m);
        }
    }
}

/// Whether `places` knows the place of every node, and nothing else.
pub open spec fn places_of(nodes: Seq<BuildNode>, places: Map<Text, usize>) -> bool {
    &&& forall|i: int|
        0 <= i < nodes.len() ==> places.contains_key((#[trigger] nodes[i]).rel@)
            && places[nodes[i].rel@] == i
    &&& forall|k: Text| #[trigger]
        places.contains_key(k) ==> places[k] < nodes.len() && nodes[places[k] as int].rel@ == k
}

/// What `places` knows is what the table has.
pub proof fn lemma_places(nodes: Seq<BuildNode>, places: Map<Text, usize>, k: Text)
    requires
        ascending(rels(nodes)),
        places_of(nodes, places),
    ensures
        places.contains_key(k) <==> table(nodes).contains_key(k),
        places.contains_key(k) ==> places[k] < nodes.len() && nodes[places[k] as int].rel@ == k
            && table(nodes)[k] == nodes[places[k] as int]@,
{
    if places.contains_key(k) {
        lemma_table_at(nodes, places[k] as int);
    }
    if table(nodes).contains_key(k) {
        let i = choose|i: int| 0 <= i < rels(nodes).len() && rels(nodes)[i] == k;
        assert(nodes[i].rel@ == k);
    }
}

/// The place of each path.
pub fn find_places(nodes: &Vec<BuildNode>) -> (r: StringHashMap<usize>)
    requires
        ascending(rels(nodes@)),
    ensures
        places_of(nodes@, r@),
{
    let mut r: StringHashMap<usize> = StringHashMap::new();
    let mut i: usize = 0;
    while i < nodes.len()
        invariant
            i <= nodes@.len(),
            ascending(rels(nodes@)),
            forall|j: int|
                0 <= j < i ==> r@.contains_key((#[trigger] nodes@[j]).rel@) && r@[nodes@[j].rel@] == j,
            forall|k: Text| #[trigger]
                r@.contains_key(k) ==> r@[k] < i && nodes@[r@[k] as int].rel@ == k,
        decreases nodes@.len() - i,
    {
        proof {
            assert forall|j: int| 0 <= j < i implies (#[trigger] nodes@[j]).rel@ != nodes@[i as int].rel@ by {
                assert(before(rels(nodes@)[j], rels(nodes@)[i as int]));
                before_irreflexive(nodes@[j].rel@);
            }
        }
        r.insert(nodes[i].rel.clone(), i);
        i = i + 1;
    }
    r
}

/// The name that stands for names that are not known.
pub open spec fn star() -> Text {
    "*"@
}

/// Whether a wildcard target is a file that is known to export `name`.
pub open spec fn provides(nodes: Map<Text, BuildView>, target: Target, name: Text) -> bool {
    match target {
        Target::Internal(p) => nodes.contains_key(p) && nodes[p].exports.contains(name) && name
            != star(),
        Target::External(_) => false,
    }
}

/// Keeps the wildcard targets whose exports are not fully known.
pub open spec fn open_ended(nodes: Map<Text, BuildView>) -> spec_fn(Target) -> bool {
    |target: Target|
        match target {
            Target::Internal(p) => nodes.contains_key(p) ==> nodes[p].exports.contains(star()),
            Target::External(_) => true,
        }
}

/// The first of the wildcard targets that provides `name`.
pub open spec fn first_provider(
    nodes: Map<Text, BuildView>,
    fallbacks: Seq<Target>,
    name: Text,
) -> Option<Target>
    decreases fallbacks.len(),
{
    if fallbacks.len() == 0 {
        None
    } else {
        match first_provider(nodes, fallbacks.drop_last(), name) {
            Some(t) => Some(t),
            None => if provides(nodes, fallbacks.last(), name) {
                Some(fallbacks.last())
            } else {
                None
            },
        }
    }
}

/// The names of a file and where they come from, with those that its
/// wildcard targets provide under the same name; what the file names itself
/// comes first.
pub open spec fn refined_sources(nodes: Map<Text, BuildView>, node: BuildView) -> Map<
    Text,
    (Target, Want),
> {
    Map::new(
        |k: Text|
            node.name_sources.contains_key(k) || first_provider(
                nodes,
                node.wildcard_fallbacks,
                k,
            ) is Some,
        |k: Text|
            if node.name_sources.contains_key(k) {
                node.name_sources[k]
            } else {
                (first_provider(nodes, node.wildcard_fallbacks, k)->0, Want::Name(k))
            },
    )
}

/// A node whose wildcard targets are looked into: the names that they are
/// known to export get their source, and a target whose exports are fully
/// known is no longer guessed at.
pub open spec fn refine(nodes: Map<Text, BuildView>, node: BuildView) -> BuildView {
    BuildView {
        name_sources: refined_sources(nodes, node),
        wildcard_fallbacks: node.wildcard_fallbacks.filter(open_ended(nodes)),
        ..node
    }
}

/// Whether `adds` holds the names that the wildcard targets up to `j`, and
/// the first `m` names of one more target, give beyond `own`.
spec fn additions(
    nodes: Map<Text, BuildView>,
    own: Map<Text, (Target, Want)>,
    fallbacks: Seq<Target>,
    target: Target,
    exports: Seq<Text>,
    adds: Map<Text, (Target, Want)>,
) -> bool {
    &&& forall|k: Text| #[trigger]
        adds.contains_key(k) <==> !own.contains_key(k) && (first_provider(nodes, fallbacks, k) is Some
            || (exports.contains(k) && k != star()))
    &&& forall|k: Text| #[trigger]
        adds.contains_key(k) ==> adds[k] == (
            match first_provider(nodes, fallbacks, k) {
                Some(t) => t,
                None => target,
            },
            Want::Name(k),
        )
}

/// The names that the wildcard targets of the node at `at` give beyond its
/// own, and the targets that stay open.
fn refinement(nodes: &Vec<BuildNode>, places: &StringHashMap<usize>, at: usize) -> (r: (
    Vec<(String, NameSource)>,
    Vec<DepRef>,
))
    requires
        nodes_wf(nodes@),
        places_of(nodes@, places@),
        at < nodes@.len(),
    ensures
        nodes@[at as int]@.name_sources.union_prefer_right(source_map(sources(r.0@)))
            == refined_sources(table(nodes@), nodes@[at as int]@),
        targets(r.1@) == nodes@[at as int]@.wildcard_fallbacks.filter(open_ended(table(nodes@))),
{
    let ghost tab = table(nodes@);
    let ghost node = nodes@[at as int]@;
    let ghost own = node.name_sources;
    let ghost refs = node.wildcard_fallbacks;
    let ghost f = open_ended(tab);
    let mut adds: Vec<(String, NameSource)> = Vec::new();
    let mut added = StringHashSet::new();
    let mut kept: Vec<DepRef> = Vec::new();
    let ghost none = Seq::<Text>::empty();
    let count = nodes[at].wildcard_fallbacks.len();
    let mut j: usize = 0;
    assert(targets(kept@) =~= refs.take(0).filter(f)) by {
        reveal(Seq::filter);
    }
    while j < count
        invariant
            at < nodes@.len(),
            nodes_wf(nodes@),
            places_of(nodes@, places@),
            tab == table(nodes@),
            node == nodes@[at as int]@,
            own == node.name_sources,
            refs == node.wildcard_fallbacks,
            f == open_ended(tab),
            none == Seq::<Text>::empty(),
            count == refs.len(),
            count == nodes@[at as int].wildcard_fallbacks@.len(),
            j <= count,
            targets(kept@) == refs.take(j as int).filter(f),
            added@ == source_map(sources(adds@)).dom(),
            forall|t: Target| #[trigger] additions(tab, own, refs.take(j as int), t, none,
                source_map(sources(adds@))),
        decreases count - j,
    {
        let target = &nodes[at].wildcard_fallbacks[j];
        let ghost t = refs[j as int];
        assert(target@ == t);
        let ghost so_far = targets(kept@);
        let ghost front = refs.take(j as int);
        let ghost next = refs.take(j + 1);
        assert(next =~= front.push(t));
        assert(next.drop_last() =~= front);
        proof {
            front.lemma_filter_push(t, f);
            assert(additions(tab, own, front, t, none, source_map(sources(adds@))));
        }
        let mut open = true;
        if let DepRef::Internal(p) = target {
            proof {
                lemma_places(nodes@, places@, p@);
            }
            if let Some(q) = places.get(p.as_str()) {
                let exports = &nodes[*q].exports;
                let ghost names = texts(exports@);
                assert(tab[p@].exports == names);
                open = holds(exports, "*");
                let mut m: usize = 0;
                assert(names.take(0) =~= none);
                while m < exports.len()
                    invariant
                        names == texts(exports@),
                        m <= exports@.len(),
                        own == nodes@[at as int]@.name_sources,
                        at < nodes@.len(),
                        target@ == t,
                        added@ == source_map(sources(adds@)).dom(),
                        additions(tab, own, front, t, names.take(m as int), source_map(sources(adds@))),
                    decreases exports@.len() - m,
                {
                    let name = &exports[m];
                    let ghost k = names[m as int];
                    let ghost adds_before = sources(adds@);
                    let ghost seen = names.take(m as int);
                    let ghost more = names.take(m + 1);
                    assert(more =~= seen.push(k));
                    assert forall|x: Text| more.contains(x) <==> (seen.contains(x) || x == k) by {
                        if seen.contains(x) {
                            let i = choose|i: int| 0 <= i < seen.len() && seen[i] == x;
                            assert(more[i] == x);
                        }
                        assert(more[m as int] == k);
                        if more.contains(x) && x != k {
                            let i = choose|i: int| 0 <= i < more.len() && more[i] == x;
                            assert(seen[i] == x);
                        }
                    }
                    if !same(name.as_str(), "*") && !nodes[at].name_sources.by_name.contains_key(
                        name.as_str(),
                    ) && !added.contains(name.as_str()) {
                        added.insert(name.clone());
                        let source = NameSource { target: target.copy(), name: Some(name.clone()) };
                        let ghost found = (t, Want::Name(k));
                        adds.push((name.clone(), source));
                        assert(sources(adds@) =~= adds_before.push((k, found)));
                        assert(sources(adds@).drop_last() =~= adds_before);
                        assert(source_map(sources(adds@)) == source_map(adds_before).insert(k, found));
                        assert(added@ =~= source_map(sources(adds@)).dom());
                    }
                    m = m + 1;
                }
                assert(names.take(names.len() as int) =~= names);
            }
        }
        if open {
            kept.push(target.copy());
            assert(targets(kept@) =~= so_far.push(t));
        }
        proof {
            assert forall|u: Target| #[trigger] additions(
                tab,
                own,
                next,
                u,
                none,
                source_map(sources(adds@)),
            ) by {
                assert forall|k: Text| !none.contains(k) by {}
            }
        }
        j = j + 1;
    }
    assert(refs.take(refs.len() as int) =~= refs);
    proof {
        let m = source_map(sources(adds@));
        assert(additions(tab, own, refs, Target::Internal(star()), none, m));
        assert(own.union_prefer_right(m) =~= refined_sources(tab, node));
    }
    (adds, kept)
}

/// Gives a node its names and its open targets.
fn apply_refinement(node: &mut BuildNode, adds: Vec<(String, NameSource)>, kept: Vec<DepRef>)
    requires
        old(node).wf(),
    ensures
        final(node).wf(),
        final(node).rel@ == old(node).rel@,
        final(node)@ == (BuildView {
            name_sources: old(node)@.name_sources.union_prefer_right(source_map(sources(adds@))),
            wildcard_fallbacks: targets(kept@),
            ..old(node)@
        }),
{
    let ghost was = node@;
    let ghost all = sources(adds@);
    assert(was.name_sources.union_prefer_right(source_map(all.take(0))) =~= was.name_sources);
    for e in it: adds
        invariant
            it.seq() == adds@,
            all == sources(adds@),
            node.wf(),
            node.rel@ == old(node).rel@,
            node@ == (BuildView {
                name_sources: was.name_sources.union_prefer_right(
                    source_map(all.take(it.index() as int)),
                ),
                ..was
            }),
    {
        let ghost k = it.index() as int;
        assert(all.take(k + 1).drop_last() =~= all.take(k));
        assert(all.take(k + 1).last() == (e.0@, e.1@));
        let ghost sofar = node.name_sources@;
        node.name_sources.put(e.0, e.1);
        assert(node.name_sources@ =~= was.name_sources.union_prefer_right(
            source_map(all.take(k + 1)),
        ));
    }
    assert(all.take(all.len() as int) =~= all);
    node.wildcard_fallbacks = kept;
}

/// The table with every node pruned to the paths that the table has.
pub open spec fn prune_all(nodes: Map<Text, BuildView>) -> Map<Text, BuildView> {
    nodes.map_values(|n: BuildView| prune(n, nodes.dom()))
}

/// The table with the wildcard targets of every node looked into.
pub open spec fn refine_all(nodes: Map<Text, BuildView>) -> Map<Text, BuildView> {
    nodes.map_values(|n: BuildView| refine(nodes, n))
}

/// Drops the references to files without a node.
pub fn prune_nodes(nodes: Vec<BuildNode>) -> (r: Vec<BuildNode>)
    requires
        nodes_wf(nodes@),
    ensures
        nodes_wf(r@),
        rels(r@) == rels(nodes@),
        table(r@) == prune_all(table(nodes@)),
{
    let ghost tab = table(nodes@);
    let mut known = StringHashSet::new();
    let mut i: usize = 0;
    while i < nodes.len()
        invariant
            i <= nodes@.len(),
            known@ =~= rels(nodes@).take(i as int).to_set(),
        decreases nodes@.len() - i,
    {
        assert(rels(nodes@).take(i + 1) =~= rels(nodes@).take(i as int).push(nodes@[i as int].rel@));
        proof {
            rels(nodes@).take(i as int).lemma_push_to_set_commute(nodes@[i as int].rel@);
        }
        known.insert(nodes[i].rel.clone());
        i = i + 1;
    }
    assert(rels(nodes@).take(nodes@.len() as int) =~= rels(nodes@));
    assert(known@ =~= tab.dom());
    let mut out: Vec<BuildNode> = Vec::new();
    for n in it: nodes
        invariant
            it.seq() == nodes@,
            nodes_wf(nodes@),
            out@.len() == it.index(),
            forall|j: int|
                0 <= j < out@.len() ==> (#[trigger] out@[j]).wf() && out@[j].rel@ == nodes@[j].rel@
                    && out@[j]@ == prune(nodes@[j]@, known@),
    {
        out.push(prune_node(n, &known));
    }
    proof {
        assert(rels(out@) =~= rels(nodes@));
        assert forall|j: int| 0 <= j < out@.len() implies prune_all(tab).contains_key(
            (#[trigger] out@[j]).rel@,
        ) && prune_all(tab)[out@[j].rel@] == out@[j]@ by {
            lemma_table_at(nodes@, j);
        }
        lemma_table_eq(out@, prune_all(tab));
    }
    out
}

/// Looks into the wildcard targets of every node.
pub fn refine_nodes(nodes: &mut Vec<BuildNode>, places: &StringHashMap<usize>)
    requires
        nodes_wf(old(nodes)@),
        places_of(old(nodes)@, places@),
    ensures
        nodes_wf(final(nodes)@),
        places_of(final(nodes)@, places@),
        rels(final(nodes)@) == rels(old(nodes)@),
        table(final(nodes)@) == refine_all(table(old(nodes)@)),
{
    let ghost was = nodes@;
    let ghost tab = table(was);
    let mut i: usize = 0;
    while i < nodes.len()
        invariant
            i <= nodes@.len(),
            nodes@.len() == was.len(),
            nodes_wf(was),
            tab == table(was),
            nodes_wf(nodes@),
            places_of(nodes@, places@),
            rels(nodes@) == rels(was),
            forall|j: int|
                0 <= j < was.len() ==> (#[trigger] nodes@[j]).rel@ == was[j].rel@ && nodes@[j]@ == (if j < i {
                    refine(tab, was[j]@)
                } else {
                    was[j]@
                }),
        decreases nodes@.len() - i,
    {
        let ghost current = nodes@;
        let (adds, kept) = refinement(nodes, places, i);
        proof {
            lemma_refine_exports(was, current);
            assert(current[i as int]@ == was[i as int]@);
            lemma_refine_agree(tab, table(current), was[i as int]@);
        }
        apply_refinement(&mut nodes[i], adds, kept);
        assert(rels(nodes@) =~= rels(was));
        assert(nodes@[i as int]@ =~= refine(tab, was[i as int]@));
        i = i + 1;
    }
    proof {
        assert forall|j: int| 0 <= j < nodes@.len() implies refine_all(tab).contains_key(
            (#[trigger] nodes@[j]).rel@,
        ) && refine_all(tab)[nodes@[j].rel@] == nodes@[j]@ by {
            lemma_table_at(was, j);
        }
        lemma_table_eq(nodes@, refine_all(tab));
    }
}

/// Nodes of the same paths and exports make tables of the same paths and
/// exports.
proof fn lemma_refine_exports(a: Seq<BuildNode>, b: Seq<BuildNode>)
    requires
        ascending(rels(a)),
        rels(a) == rels(b),
        forall|j: int| 0 <= j < a.len() ==> (#[trigger] a[j])@.exports == b[j]@.exports,
    ensures
        forall|k: Text| #[trigger] table(a).contains_key(k) <==> table(b).contains_key(k),
        forall|k: Text| #[trigger] table(a).contains_key(k) ==> table(a)[k].exports == table(b)[k].exports,
{
    assert(rels(a).len() == a.len() && rels(b).len() == b.len());
    assert forall|k: Text| #[trigger] table(a).contains_key(k) implies table(a)[k].exports
        == table(b)[k].exports by {
        let i = rels(a).index_of(k);
        assert(rels(a)[i] == k);
    }
}

/// What refining gives depends on the paths and the exports of the table
/// alone.
proof fn lemma_refine_agree(a: Map<Text, BuildView>, b: Map<Text, BuildView>, node: BuildView)
    requires
        forall|k: Text| #[trigger] a.contains_key(k) <==> b.contains_key(k),
        forall|k: Text| #[trigger] a.contains_key(k) ==> a[k].exports == b[k].exports,
    ensures
        refine(a, node) == refine(b, node),
{
    assert forall|t: Target, k: Text| #[trigger] provides(a, t, k) == provides(b, t, k) by {
        if let Target::Internal(p) = t {
            assert(a.contains_key(p) <==> b.contains_key(p));
        }
    }
    assert forall|k: Text, f: Seq<Target>| #[trigger]
        first_provider(a, f, k) == first_provider(b, f, k) by {
        lemma_first_provider_agree(a, b, f, k);
    }
    assert(refined_sources(a, node) =~= refined_sources(b, node));
    assert(open_ended(a) =~= open_ended(b));
}

proof fn lemma_first_provider_agree(
    a: Map<Text, BuildView>,
    b: Map<Text, BuildView>,
    f: Seq<Target>,
    k: Text,
)
    requires
        forall|t: Target, k: Text| #[trigger] provides(a, t, k) == provides(b, t, k),
    ensures
        first_provider(a, f, k) == first_provider(b, f, k),
    decreases f.len(),
{
    if f.len() > 0 {
        lemma_first_provider_agree(a, b, f.drop_last(), k);
    }
}

} // verus!
