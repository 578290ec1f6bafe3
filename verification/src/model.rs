//! The dependency graph as it is written out, and the notes beside it.
use vstd::prelude::*;

use crate::order::{ascending, lists};
use crate::text::{texts, Text};

verus! {

/// One file of the graph: a function of the source tree, with no authored
/// data in it.
#[derive(Debug, Clone)]
pub struct Node {
    /// Content hash (non-cryptographic), by which a note in the sidecar file
    /// is seen to be fresh or stale.
    pub hash: String,
    /// Whether the file exists only to re-export names of other files.
    /// Absent where barrel files are left out of the graph.
    pub is_barrel: Option<bool>,
    /// Names that the file exports; "*" stands for names that are not known (a
    /// wildcard re-export, or a Python module without `__all__`).
    pub exports: Vec<String>,
    /// Files that this file imports or re-exports from, in order.
    pub dependencies: Vec<String>,
    /// Files that import or re-export from this file, in order.
    pub dependents: Vec<String>,
    /// `dependencies` with barrel files followed through to the files behind
    /// them. Present only where barrel files are kept.
    pub effective_dependencies: Option<Vec<String>>,
    /// Reverse of `effective_dependencies`.
    pub effective_dependents: Option<Vec<String>>,
    /// Specifiers that lead to no file under the root.
    pub external_dependencies: Option<Vec<String>>,
}

/// What a [`Node`] says, with its lists taken as sets.
pub struct NodeSets {
    pub hash: Text,
    pub is_barrel: Option<bool>,
    pub exports: Seq<Text>,
    pub dependencies: Set<Text>,
    pub dependents: Set<Text>,
    pub effective_dependencies: Option<Set<Text>>,
    pub effective_dependents: Option<Set<Text>>,
    pub external_dependencies: Option<Set<Text>>,
}

/// Whether an optional list lists an optional set in order.
pub open spec fn lists_optional(list: Option<Vec<String>>, set: Option<Set<Text>>) -> bool {
    match (list, set) {
        (Some(l), Some(s)) => lists(texts(l@), s),
        (None, None) => true,
        _ => false,
    }
}

impl Node {
    /// Whether the node says `sets`, every list in order and free of
    /// duplicates.
    pub open spec fn says(&self, sets: NodeSets) -> bool {
        &&& self.hash@ == sets.hash
        &&& self.is_barrel == sets.is_barrel
        &&& texts(self.exports@) == sets.exports
        &&& lists(texts(self.dependencies@), sets.dependencies)
        &&& lists(texts(self.dependents@), sets.dependents)
        &&& lists_optional(self.effective_dependencies, sets.effective_dependencies)
        &&& lists_optional(self.effective_dependents, sets.effective_dependents)
        &&& lists_optional(self.external_dependencies, sets.external_dependencies)
    }
}

/// A dependency graph.
#[derive(Debug, Clone)]
pub struct Graph {
    /// The scanned directory.
    pub root: String,
    /// The moment of the scan.
    pub generated_at: String,
    /// The files by path relative to the root, in order.
    pub nodes: Vec<(String, Node)>,
}

/// The paths of a list of nodes.
pub open spec fn node_paths(nodes: Seq<(String, Node)>) -> Seq<Text> {
    nodes.map_values(|e: (String, Node)| e.0@)
}

impl Graph {
    /// The nodes stand in the order of their paths, each path once.
    pub open spec fn wf(&self) -> bool {
        ascending(node_paths(self.nodes@))
    }
}

/// A note on one file, written by hand.
#[derive(Debug, Clone)]
pub struct CtxEntry {
    /// What the file does, not how.
    pub ctx: String,
    /// The file's hash at the time the note was written.
    pub ctx_hash: String,
}

/// The notes by path.
pub type CtxStore = Vec<(String, CtxEntry)>;

} // verus!
