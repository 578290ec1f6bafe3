//! What a source file states about other files.
use vstd::prelude::*;

use crate::text::{copy_texts, texts, Text};

verus! {

/// Where a dependency leads.
#[derive(Debug, Clone)]
pub enum DepRef {
    /// A path relative to the scanned root.
    Internal(String),
    /// A raw, unresolved specifier.
    External(String),
}

/// The view of a [`DepRef`].
pub enum Target {
    Internal(Text),
    External(Text),
}

impl View for DepRef {
    type V = Target;

    open spec fn view(&self) -> Target {
        match self {
            DepRef::Internal(p) => Target::Internal(p@),
            DepRef::External(s) => Target::External(s@),
        }
    }
}

impl DepRef {
    /// The same reference once more.
    pub fn copy(&self) -> (r: DepRef)
        ensures
            r@ == self@,
    {
        match self {
            DepRef::Internal(p) => DepRef::Internal(p.clone()),
            DepRef::External(s) => DepRef::External(s.clone()),
        }
    }
}

/// Which names of a dependency an edge needs. An edge is followed through a
/// barrel file by the name that was imported, not to everything that the
/// barrel re-exports.
#[derive(Debug, Clone)]
pub enum ImportWant {
    /// Cannot be narrowed: a namespace import, a side-effect import,
    /// `require(...)`, or a dynamic `import(...)`.
    All,
    /// The names as the target module exports them.
    Named(Vec<String>),
}

/// The view of an [`ImportWant`].
pub enum Wanted {
    All,
    Named(Seq<Text>),
}

impl View for ImportWant {
    type V = Wanted;

    open spec fn view(&self) -> Wanted {
        match self {
            ImportWant::All => Wanted::All,
            ImportWant::Named(names) => Wanted::Named(texts(names@)),
        }
    }
}

impl ImportWant {
    /// The same demand once more.
    pub fn copy(&self) -> (r: ImportWant)
        ensures
            r@ == self@,
    {
        match self {
            ImportWant::All => ImportWant::All,
            ImportWant::Named(names) => ImportWant::Named(copy_texts(names)),
        }
    }
}

/// One edge out of a file.
#[derive(Debug, Clone)]
pub struct Dependency {
    pub target: DepRef,
    pub want: ImportWant,
}

/// The view of a [`Dependency`].
pub struct Edge {
    pub target: Target,
    pub want: Wanted,
}

impl View for Dependency {
    type V = Edge;

    open spec fn view(&self) -> Edge {
        Edge { target: self.target@, want: self.want@ }
    }
}

/// What is asked of a file: everything, or one name that it exports.
pub enum Want {
    All,
    Name(Text),
}

/// What an optional name asks for: that name, or everything.
pub open spec fn want_of(name: Option<String>) -> Want {
    match name {
        Some(n) => Want::Name(n@),
        None => Want::All,
    }
}

/// Where a re-exported name comes from.
#[derive(Debug, Clone)]
pub struct NameSource {
    pub target: DepRef,
    /// The name as the target exports it. Absent where the name stands for all
    /// that the target exports.
    pub name: Option<String>,
}

impl View for NameSource {
    type V = (Target, Want);

    open spec fn view(&self) -> (Target, Want) {
        (self.target@, want_of(self.name))
    }
}

/// What a source file does as far as the dependency graph is concerned, with
/// its specifiers resolved to files where that was possible.
#[derive(Debug, Clone)]
pub struct FileFacts {
    pub dependencies: Vec<Dependency>,
    pub exports: Vec<String>,
    pub has_local_exports: bool,
    pub has_reexports: bool,
    /// Re-exported name, as it is visible, and where it comes from. Known for
    /// the names of `export { x } from`, `export { x as y } from` and
    /// `export * as ns from`; JavaScript and TypeScript only.
    pub name_sources: Vec<(String, NameSource)>,
    /// The targets of `export * from`, whose names are not known from the
    /// file alone.
    pub wildcard_fallbacks: Vec<DepRef>,
}

/// The view of [`FileFacts`].
#[verifier::ext_equal]
pub struct Facts {
    pub dependencies: Seq<Edge>,
    pub exports: Seq<Text>,
    pub has_local_exports: bool,
    pub has_reexports: bool,
    pub name_sources: Seq<(Text, (Target, Want))>,
    pub wildcard_fallbacks: Seq<Target>,
}

/// The views of a list of edges.
pub open spec fn edges(list: Seq<Dependency>) -> Seq<Edge> {
    list.map_values(|d: Dependency| d@)
}

/// The views of a list of references.
pub open spec fn targets(list: Seq<DepRef>) -> Seq<Target> {
    list.map_values(|d: DepRef| d@)
}

/// The views of a list of re-exported names.
pub open spec fn sources(list: Seq<(String, NameSource)>) -> Seq<(Text, (Target, Want))> {
    list.map_values(|e: (String, NameSource)| (e.0@, e.1@))
}

/// An edge that cannot be narrowed.
pub open spec fn whole() -> spec_fn(Target) -> Edge {
    |target: Target| Edge { target, want: Wanted::All }
}

/// Edges that cannot be narrowed, one to each target.
pub fn whole_edges(found: Vec<DepRef>) -> (r: Vec<Dependency>)
    ensures
        edges(r@) == targets(found@).map_values(whole()),
{
    let ghost wanted = targets(found@).map_values(whole());
    let mut out: Vec<Dependency> = Vec::new();
    for target in it: found
        invariant
            it.seq() == found@,
            wanted == targets(found@).map_values(whole()),
            edges(out@) =~= wanted.take(it.index() as int),
    {
        let ghost was = edges(out@);
        out.push(Dependency { target, want: ImportWant::All });
        assert(edges(out@) =~= was.push(wanted[it.index() as int]));
    }
    assert(edges(out@) =~= wanted);
    out
}

impl View for FileFacts {
    type V = Facts;

    open spec fn view(&self) -> Facts {
        Facts {
            dependencies: edges(self.dependencies@),
            exports: texts(self.exports@),
            has_local_exports: self.has_local_exports,
            has_reexports: self.has_reexports,
            name_sources: sources(self.name_sources@),
            wildcard_fallbacks: targets(self.wildcard_fallbacks@),
        }
    }
}

/// The facts of a file that states nothing.
pub open spec fn no_facts() -> Facts {
    Facts {
        dependencies: Seq::empty(),
        exports: Seq::empty(),
        has_local_exports: false,
        has_reexports: false,
        name_sources: Seq::empty(),
        wildcard_fallbacks: Seq::empty(),
    }
}

impl Default for FileFacts {
    fn default() -> (r: FileFacts)
        ensures
            r@ == no_facts(),
    {
        let r = FileFacts {
            dependencies: Vec::new(),
            exports: Vec::new(),
            has_local_exports: false,
            has_reexports: false,
            name_sources: Vec::new(),
            wildcard_fallbacks: Vec::new(),
        };
        assert(r@ =~= no_facts());
        r
    }
}

} // verus!
