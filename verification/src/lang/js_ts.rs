//! JavaScript and TypeScript: imports, exports and re-exports.
use vstd::prelude::*;

use crate::disk::{agree_on, lemma_agree_parts, Disk};
use crate::facts::{
    edges, sources, targets, want_of, DepRef, Dependency, Edge, Facts, FileFacts, ImportWant, NameSource, Target,
    Want, Wanted,
};
use crate::lang::js_pkg::JsPackageIndex;
use crate::lang::specifier::{
    list_candidates, resolve_specifier, specifier_candidates, specifier_target, target_asks_candidates_only, Scope,
};
use crate::lang::ts_paths::TsPathsIndex;
use crate::order::{in_order, lemma_in_order, TextSet};
use crate::syntax::{children, numbers, visits, NodeView, SyntaxTree};
use crate::text::{copy_texts, optional_text, same, strs, texts, Text};
use crate::tsutil::{
    child_by_field_name, children_of_kind, field_child, first_child_of_kind, first_named_child_of_kinds, first_of,
    has_child_kind, is_kind, kind_child, kind_children, literal, named_of_kinds, node_text, string_literal_content,
    text_of,
};

verus! {

/// What a script states, with its specifiers as they are written.
pub struct Script {
    /// Specifier and needed names of each edge.
    pub edges: Vec<(String, ImportWant)>,
    pub exports: Vec<String>,
    pub has_local_exports: bool,
    pub has_reexports: bool,
    /// Re-exported name as it is visible, the specifier of where it comes from,
    /// and the name that it has there; none where it stands for all that is
    /// exported there.
    pub name_sources: Vec<(String, String, Option<String>)>,
    /// The specifiers of `export * from`.
    pub wildcards: Vec<String>,
}

/// The view of a [`Script`].
#[verifier::ext_equal]
pub struct ScriptView {
    pub edges: Seq<(Text, Wanted)>,
    pub exports: Seq<Text>,
    pub has_local_exports: bool,
    pub has_reexports: bool,
    pub name_sources: Seq<(Text, Text, Want)>,
    pub wildcards: Seq<Text>,
}

/// The views of a list of edges.
pub open spec fn edge_views(list: Seq<(String, ImportWant)>) -> Seq<(Text, Wanted)> {
    list.map_values(|e: (String, ImportWant)| (e.0@, e.1@))
}

/// The views of a list of re-exported names.
pub open spec fn name_views(list: Seq<(String, String, Option<String>)>) -> Seq<(Text, Text, Want)> {
    list.map_values(|e: (String, String, Option<String>)| (e.0@, e.1@, want_of(e.2)))
}

impl View for Script {
    type V = ScriptView;

    open spec fn view(&self) -> ScriptView {
        ScriptView {
            edges: edge_views(self.edges@),
            exports: texts(self.exports@),
            has_local_exports: self.has_local_exports,
            has_reexports: self.has_reexports,
            name_sources: name_views(self.name_sources@),
            wildcards: texts(self.wildcards@),
        }
    }
}

/// A script that states nothing.
pub open spec fn blank() -> ScriptView {
    ScriptView {
        edges: Seq::empty(),
        exports: Seq::empty(),
        has_local_exports: false,
        has_reexports: false,
        name_sources: Seq::empty(),
        wildcards: Seq::empty(),
    }
}

/// The specifier of `require("..")` or of a dynamic `import("..")`.
pub open spec fn call_source(t: Seq<NodeView>, src: Text, node: int) -> Option<Text> {
    match field_child(t, node, "function"@) {
        None => None,
        Some(f) => {
            let is_require = t[f].kind == "identifier"@ && text_of(t, src, f) == "require"@;
            let is_dynamic_import = t[f].kind == "import"@;
            if !is_require && !is_dynamic_import {
                None
            } else {
                match field_child(t, node, "arguments"@) {
                    None => None,
                    Some(args) => match kind_child(t, args, "string"@) {
                        None => None,
                        Some(s) => literal(t, src, s),
                    },
                }
            }
        },
    }
}

/// The name that an assignment exports: `*` for `module.exports = ..`, the
/// property for `exports.name = ..`.
pub open spec fn assigned_export(t: Seq<NodeView>, src: Text, node: int) -> Option<Text> {
    match field_child(t, node, "left"@) {
        None => None,
        Some(left) => if t[left].kind != "member_expression"@ {
            None
        } else {
            match (field_child(t, left, "object"@), field_child(t, left, "property"@)) {
                (Some(obj), Some(prop)) => if text_of(t, src, obj) == "module"@ && text_of(
                    t,
                    src,
                    prop,
                ) == "exports"@ {
                    Some("*"@)
                } else if text_of(t, src, obj) == "exports"@ {
                    Some(text_of(t, src, prop))
                } else {
                    None
                },
                _ => None,
            }
        },
    }
}

/// The text of the `name` field of a node.
pub open spec fn name_of(t: Seq<NodeView>, src: Text) -> spec_fn(int) -> Option<Text> {
    |s: int|
        match field_child(t, s, "name"@) {
            Some(n) => Some(text_of(t, src, n)),
            None => None,
        }
}

/// The names that one part of an import clause binds, as the source module
/// calls them.
pub open spec fn clause_names(t: Seq<NodeView>, src: Text) -> spec_fn(int) -> Seq<Text> {
    |c: int|
        if t[c].kind == "identifier"@ {
            seq!["default"@]
        } else if t[c].kind == "named_imports"@ {
            kind_children(t, c, "import_specifier"@).filter_map(name_of(t, src))
        } else {
            Seq::empty()
        }
}

/// What an import clause needs: everything for a namespace import, else the
/// names it binds.
pub open spec fn clause_want(t: Seq<NodeView>, src: Text, clause: int) -> Wanted {
    if kind_child(t, clause, "namespace_import"@) is Some {
        Wanted::All
    } else {
        Wanted::Named(children(t, clause).flat_map(clause_names(t, src)))
    }
}

/// The edge of an import statement. Without a clause it is a side-effect
/// import.
pub open spec fn import_edge(t: Seq<NodeView>, src: Text, node: int) -> Option<(Text, Wanted)> {
    match field_child(t, node, "source"@) {
        None => None,
        Some(s) => match literal(t, src, s) {
            None => None,
            Some(spec) => Some(
                (
                    spec,
                    match kind_child(t, node, "import_clause"@) {
                        None => Wanted::All,
                        Some(clause) => clause_want(t, src, clause),
                    },
                ),
            ),
        },
    }
}

/// The specifier that an export statement re-exports from.
pub open spec fn export_source(t: Seq<NodeView>, src: Text, node: int) -> Option<Text> {
    match field_child(t, node, "source"@) {
        None => None,
        Some(s) => literal(t, src, s),
    }
}

/// Of `export { x as y } from ..` the names `x` and `y`; they are the same
/// where there is no alias.
pub open spec fn reexported(t: Seq<NodeView>, src: Text) -> spec_fn(int) -> Option<(Text, Text)> {
    |s: int|
        match field_child(t, s, "name"@) {
            None => None,
            Some(n) => Some(
                (
                    text_of(t, src, n),
                    match field_child(t, s, "alias"@) {
                        Some(a) => text_of(t, src, a),
                        None => text_of(t, src, n),
                    },
                ),
            ),
        }
}

/// The name that a local export specifier is visible under.
pub open spec fn local_name(t: Seq<NodeView>, src: Text) -> spec_fn(int) -> Option<Text> {
    |s: int|
        match field_child(t, s, "alias"@) {
            Some(a) => Some(text_of(t, src, a)),
            None => match field_child(t, s, "name"@) {
                Some(n) => Some(text_of(t, src, n)),
                None => None,
            },
        }
}

/// The name that a variable declarator declares; `*` for a pattern.
pub open spec fn declarator_name(t: Seq<NodeView>, src: Text) -> spec_fn(int) -> Option<Text> {
    |s: int|
        match field_child(t, s, "name"@) {
            Some(n) => Some(
                if t[n].kind == "identifier"@ {
                    text_of(t, src, n)
                } else {
                    "*"@
                },
            ),
            None => None,
        }
}

/// The kinds of declarations that declare one name.
pub open spec fn single_declarations() -> Seq<Text> {
    seq![
        "function_declaration"@,
        "generator_function_declaration"@,
        "class_declaration"@,
        "interface_declaration"@,
        "type_alias_declaration"@,
        "enum_declaration"@,
    ]
}

/// The names that a declaration declares; `*` where they are not known.
pub open spec fn declared_names(t: Seq<NodeView>, src: Text, node: int) -> Seq<Text> {
    if single_declarations().contains(t[node].kind) {
        match field_child(t, node, "name"@) {
            Some(n) => seq![text_of(t, src, n)],
            None => Seq::empty(),
        }
    } else if t[node].kind == "lexical_declaration"@ || t[node].kind == "variable_declaration"@ {
        kind_children(t, node, "variable_declarator"@).filter_map(declarator_name(t, src))
    } else {
        seq!["*"@]
    }
}

/// The names of a re-exporting clause, as the source has them and as they are
/// visible.
pub open spec fn clause_pairs(t: Seq<NodeView>, src: Text, clause: int) -> Seq<(Text, Text)> {
    kind_children(t, clause, "export_specifier"@).filter_map(reexported(t, src))
}

/// The statement `export .. from spec`.
pub open spec fn after_reexport(
    t: Seq<NodeView>,
    src: Text,
    node: int,
    spec: Text,
    acc: ScriptView,
) -> ScriptView {
    match kind_child(t, node, "export_clause"@) {
        Some(clause) => {
            let pairs = clause_pairs(t, src, clause);
            ScriptView {
                edges: acc.edges.push(
                    (spec, Wanted::Named(pairs.map_values(|p: (Text, Text)| p.0))),
                ),
                exports: acc.exports + pairs.map_values(|p: (Text, Text)| p.1),
                has_reexports: true,
                name_sources: acc.name_sources + pairs.map_values(
                    |p: (Text, Text)| (p.1, spec, Want::Name(p.0)),
                ),
                ..acc
            }
        },
        None => match kind_child(t, node, "namespace_export"@) {
            Some(ns) => match first_of(children(t, ns), named_of_kinds(t, seq!["identifier"@])) {
                Some(ident) => ScriptView {
                    edges: acc.edges.push((spec, Wanted::All)),
                    exports: acc.exports.push(text_of(t, src, ident)),
                    has_reexports: true,
                    name_sources: acc.name_sources.push((text_of(t, src, ident), spec, Want::All)),
                    ..acc
                },
                None => ScriptView {
                    edges: acc.edges.push((spec, Wanted::All)),
                    has_reexports: true,
                    ..acc
                },
            },
            None => ScriptView {
                edges: acc.edges.push((spec, Wanted::All)),
                exports: acc.exports.push("*"@),
                has_reexports: true,
                wildcards: acc.wildcards.push(spec),
                ..acc
            },
        },
    }
}

/// An export statement without a source.
pub open spec fn after_local_export(t: Seq<NodeView>, src: Text, node: int, acc: ScriptView) -> ScriptView {
    if kind_child(t, node, "default"@) is Some {
        ScriptView { exports: acc.exports.push("default"@), has_local_exports: true, ..acc }
    } else {
        match field_child(t, node, "declaration"@) {
            Some(decl) => ScriptView {
                exports: acc.exports + declared_names(t, src, decl),
                has_local_exports: true,
                ..acc
            },
            None => match kind_child(t, node, "export_clause"@) {
                Some(clause) => ScriptView {
                    exports: acc.exports + kind_children(
                        t,
                        clause,
                        "export_specifier"@,
                    ).filter_map(local_name(t, src)),
                    has_local_exports: true,
                    ..acc
                },
                None => acc,
            },
        }
    }
}

/// What is stated once a node has been visited.
pub open spec fn after_node(t: Seq<NodeView>, src: Text, node: int, acc: ScriptView) -> ScriptView {
    if t[node].kind == "import_statement"@ {
        match import_edge(t, src, node) {
            Some(e) => ScriptView { edges: acc.edges.push(e), ..acc },
            None => acc,
        }
    } else if t[node].kind == "export_statement"@ {
        match export_source(t, src, node) {
            Some(spec) => after_reexport(t, src, node, spec, acc),
            None => after_local_export(t, src, node, acc),
        }
    } else if t[node].kind == "call_expression"@ {
        match call_source(t, src, node) {
            Some(spec) => ScriptView { edges: acc.edges.push((spec, Wanted::All)), ..acc },
            None => acc,
        }
    } else if t[node].kind == "assignment_expression"@ {
        match assigned_export(t, src, node) {
            Some(name) => ScriptView {
                exports: acc.exports.push(name),
                has_local_exports: true,
                ..acc
            },
            None => acc,
        }
    } else {
        acc
    }
}

/// What is stated once the nodes have been visited in order.
pub open spec fn after_nodes(t: Seq<NodeView>, src: Text, order: Seq<int>) -> ScriptView
    decreases order.len(),
{
    if order.len() == 0 {
        blank()
    } else {
        after_node(t, src, order.last(), after_nodes(t, src, order.drop_last()))
    }
}

/// What a script states, its exports in order and each once.
pub open spec fn script_of(t: Seq<NodeView>, src: Text) -> ScriptView {
    let all = after_nodes(t, src, visits(t));
    ScriptView { exports: in_order(all.exports.to_set()), ..all }
}

/// The specifier of `require("..")` or of a dynamic `import("..")`.
pub fn require_or_dynamic_import_source(tree: &SyntaxTree, node: usize, src: &str) -> (r: Option<
    String,
>)
    requires
        tree.wf(),
        node < tree@.len(),
    ensures
        optional_text(r) == call_source(tree@, src@, node as int),
{
    let func = match child_by_field_name(tree, node, "function") {
        Some(f) => f,
        None => {
            return None;
        },
    };
    let is_require = is_kind(tree, func, "identifier") && same(
        node_text(tree, func, src),
        "require",
    );
    let is_dynamic_import = is_kind(tree, func, "import");
    if !is_require && !is_dynamic_import {
        return None;
    }
    match child_by_field_name(tree, node, "arguments") {
        None => None,
        Some(args) => match first_child_of_kind(tree, args, "string") {
            None => None,
            Some(s) => string_literal_content(tree, s, src),
        },
    }
}

/// Takes note of `module.exports = ..` and `exports.name = ..`.
pub fn handle_commonjs_assignment(tree: &SyntaxTree, node: usize, src: &str, script: &mut Script)
    requires
        tree.wf(),
        node < tree@.len(),
    ensures
        final(script)@ == (match assigned_export(tree@, src@, node as int) {
            Some(name) => ScriptView {
                exports: old(script)@.exports.push(name),
                has_local_exports: true,
                ..old(script)@
            },
            None => old(script)@,
        }),
{
    let left = match child_by_field_name(tree, node, "left") {
        Some(l) => l,
        None => {
            return ;
        },
    };
    if !is_kind(tree, left, "member_expression") {
        return ;
    }
    let obj = match child_by_field_name(tree, left, "object") {
        Some(o) => o,
        None => {
            return ;
        },
    };
    let prop = match child_by_field_name(tree, left, "property") {
        Some(p) => p,
        None => {
            return ;
        },
    };
    let obj_text = node_text(tree, obj, src);
    let prop_text = node_text(tree, prop, src);
    let ghost was = script@;
    if same(obj_text, "module") && same(prop_text, "exports") {
        script.has_local_exports = true;
        script.exports.push("*".to_owned());
        assert(texts(script.exports@) =~= was.exports.push("*"@));
    } else if same(obj_text, "exports") {
        script.has_local_exports = true;
        script.exports.push(prop_text.to_owned());
        assert(texts(script.exports@) =~= was.exports.push(prop_text@));
    }
}

/// Appends the names of the import specifiers of a node.
fn push_specifier_names(tree: &SyntaxTree, node: usize, src: &str, names: &mut Vec<String>)
    requires
        tree.wf(),
        node < tree@.len(),
    ensures
        texts(final(names)@) == texts(old(names)@) + kind_children(
            tree@,
            node as int,
            "import_specifier"@,
        ).filter_map(name_of(tree@, src@)),
{
    let specs = children_of_kind(tree, node, "import_specifier");
    let ghost all = numbers(specs@);
    let ghost f = name_of(tree@, src@);
    let ghost was = texts(names@);
    let mut i: usize = 0;
    assert(all.take(0) =~= Seq::<int>::empty());
    assert(texts(names@) =~= was + all.take(0).filter_map(f));
    while i < specs.len()
        invariant
            i <= specs@.len(),
            tree.wf(),
            all == numbers(specs@),
            f == name_of(tree@, src@),
            forall|k: int| 0 <= k < specs@.len() ==> #[trigger] specs@[k] < tree@.len(),
            texts(names@) == was + all.take(i as int).filter_map(f),
        decreases specs@.len() - i,
    {
        let ghost mid = texts(names@);
        proof {
            all.lemma_filter_map_take_succ(f, i as int);
        }
        if let Some(n) = child_by_field_name(tree, specs[i], "name") {
            let name = node_text(tree, n, src);
            names.push(name.to_owned());
            assert(texts(names@) =~= mid.push(name@));
        }
        assert(texts(names@) =~= was + all.take(i + 1).filter_map(f));
        i = i + 1;
    }
    assert(all.take(all.len() as int) =~= all);
}

/// What an import clause needs of the module it imports from.
pub fn import_clause_want(tree: &SyntaxTree, clause: usize, src: &str) -> (r: ImportWant)
    requires
        tree.wf(),
        clause < tree@.len(),
    ensures
        r@ == clause_want(tree@, src@, clause as int),
{
    if has_child_kind(tree, clause, "namespace_import") {
        return ImportWant::All;
    }
    let kids = tree.children(clause);
    let ghost all = numbers(kids@);
    let ghost f = clause_names(tree@, src@);
    let mut names: Vec<String> = Vec::new();
    let mut i: usize = 0;
    assert(all.take(0) =~= Seq::<int>::empty());
    assert(texts(names@) =~= all.take(0).flat_map(f));
    while i < kids.len()
        invariant
            i <= kids@.len(),
            tree.wf(),
            all == numbers(kids@),
            f == clause_names(tree@, src@),
            forall|k: int| 0 <= k < kids@.len() ==> #[trigger] kids@[k] < tree@.len(),
            texts(names@) == all.take(i as int).flat_map(f),
        decreases kids@.len() - i,
    {
        let ghost mid = texts(names@);
        proof {
            all.lemma_flat_map_take_append(f, i as int);
        }
        if is_kind(tree, kids[i], "identifier") {
            names.push("default".to_owned());
            assert(texts(names@) =~= mid + seq!["default"@]);
        } else if is_kind(tree, kids[i], "named_imports") {
            push_specifier_names(tree, kids[i], src, &mut names);
        } else {
            assert(texts(names@) =~= mid + Seq::<Text>::empty());
        }
        i = i + 1;
    }
    assert(all.take(all.len() as int) =~= all);
    ImportWant::Named(names)
}

/// Takes note of an import statement.
pub fn handle_import_statement(tree: &SyntaxTree, node: usize, src: &str, script: &mut Script)
    requires
        tree.wf(),
        node < tree@.len(),
    ensures
        final(script)@ == (match import_edge(tree@, src@, node as int) {
            Some(e) => ScriptView { edges: old(script)@.edges.push(e), ..old(script)@ },
            None => old(script)@,
        }),
{
    let source_node = match child_by_field_name(tree, node, "source") {
        Some(s) => s,
        None => {
            return ;
        },
    };
    let spec = match string_literal_content(tree, source_node, src) {
        Some(s) => s,
        None => {
            return ;
        },
    };
    let want = match first_child_of_kind(tree, node, "import_clause") {
        None => ImportWant::All,
        Some(clause) => import_clause_want(tree, clause, src),
    };
    let ghost was = script@;
    let ghost e = (spec@, want@);
    script.edges.push((spec, want));
    assert(edge_views(script.edges@) =~= was.edges.push(e));
}

/// Appends the names that a declaration declares.
pub fn collect_declared_names(tree: &SyntaxTree, node: usize, src: &str, out: &mut Vec<String>)
    requires
        tree.wf(),
        node < tree@.len(),
    ensures
        texts(final(out)@) == texts(old(out)@) + declared_names(tree@, src@, node as int),
{
    let ghost was = texts(out@);
    let ghost kind = tree@[node as int].kind;
    let single = is_kind(tree, node, "function_declaration") || is_kind(
        tree,
        node,
        "generator_function_declaration",
    ) || is_kind(tree, node, "class_declaration") || is_kind(tree, node, "interface_declaration")
        || is_kind(tree, node, "type_alias_declaration") || is_kind(tree, node, "enum_declaration");
    proof {
        let kinds = single_declarations();
        assert(kinds[0] == "function_declaration"@);
        assert(kinds[1] == "generator_function_declaration"@);
        assert(kinds[2] == "class_declaration"@);
        assert(kinds[3] == "interface_declaration"@);
        assert(kinds[4] == "type_alias_declaration"@);
        assert(kinds[5] == "enum_declaration"@);
        assert(single == kinds.contains(kind));
    }
    if single {
        match child_by_field_name(tree, node, "name") {
            Some(n) => {
                let name = node_text(tree, n, src);
                out.push(name.to_owned());
                assert(texts(out@) =~= was + seq![name@]);
            },
            None => {
                assert(texts(out@) =~= was + Seq::<Text>::empty());
            },
        }
    } else if is_kind(tree, node, "lexical_declaration") || is_kind(
        tree,
        node,
        "variable_declaration",
    ) {
        let decls = children_of_kind(tree, node, "variable_declarator");
        let ghost all = numbers(decls@);
        let ghost f = declarator_name(tree@, src@);
        let mut i: usize = 0;
        assert(all.take(0) =~= Seq::<int>::empty());
        assert(texts(out@) =~= was + all.take(0).filter_map(f));
        while i < decls.len()
            invariant
                i <= decls@.len(),
                tree.wf(),
                all == numbers(decls@),
                f == declarator_name(tree@, src@),
                forall|k: int| 0 <= k < decls@.len() ==> #[trigger] decls@[k] < tree@.len(),
                texts(out@) == was + all.take(i as int).filter_map(f),
            decreases decls@.len() - i,
        {
            let ghost mid = texts(out@);
            proof {
                all.lemma_filter_map_take_succ(f, i as int);
            }
            if let Some(n) = child_by_field_name(tree, decls[i], "name") {
                if is_kind(tree, n, "identifier") {
                    let name = node_text(tree, n, src);
                    out.push(name.to_owned());
                    assert(texts(out@) =~= mid.push(name@));
                } else {
                    out.push("*".to_owned());
                    assert(texts(out@) =~= mid.push("*"@));
                }
            }
            assert(texts(out@) =~= was + all.take(i + 1).filter_map(f));
            i = i + 1;
        }
        assert(all.take(all.len() as int) =~= all);
    } else {
        out.push("*".to_owned());
        assert(texts(out@) =~= was + seq!["*"@]);
    }
}

/// Takes note of `export { .. } from spec`.
fn reexport_clause(tree: &SyntaxTree, clause: usize, src: &str, spec: String, script: &mut Script)
    requires
        tree.wf(),
        clause < tree@.len(),
    ensures
        ({
            let pairs = clause_pairs(tree@, src@, clause as int);
            final(script)@ == (ScriptView {
                edges: old(script)@.edges.push(
                    (spec@, Wanted::Named(pairs.map_values(|p: (Text, Text)| p.0))),
                ),
                exports: old(script)@.exports + pairs.map_values(|p: (Text, Text)| p.1),
                name_sources: old(script)@.name_sources + pairs.map_values(
                    |p: (Text, Text)| (p.1, spec@, Want::Name(p.0)),
                ),
                ..old(script)@
            })
        }),
{
    let ghost was = script@;
    let specs = children_of_kind(tree, clause, "export_specifier");
    let ghost all = numbers(specs@);
    let ghost f = reexported(tree@, src@);
    let ghost origs = |p: (Text, Text)| p.0;
    let ghost visible = |p: (Text, Text)| p.1;
    let ghost sourced = |p: (Text, Text)| (p.1, spec@, Want::Name(p.0));
    let mut wanted: Vec<String> = Vec::new();
    let mut i: usize = 0;
    assert(all.take(0) =~= Seq::<int>::empty());
    let ghost none = all.take(0).filter_map(f);
    assert(none =~= Seq::<(Text, Text)>::empty());
    assert(texts(wanted@) =~= none.map_values(origs));
    assert(texts(script.exports@) =~= was.exports + none.map_values(visible));
    assert(name_views(script.name_sources@) =~= was.name_sources + none.map_values(sourced));
    while i < specs.len()
        invariant
            i <= specs@.len(),
            tree.wf(),
            all == numbers(specs@),
            f == reexported(tree@, src@),
            forall|k: int| 0 <= k < specs@.len() ==> #[trigger] specs@[k] < tree@.len(),
            origs == (|p: (Text, Text)| p.0),
            visible == (|p: (Text, Text)| p.1),
            sourced == (|p: (Text, Text)| (p.1, spec@, Want::Name(p.0))),
            texts(wanted@) == all.take(i as int).filter_map(f).map_values(origs),
            script@ == (ScriptView {
                exports: was.exports + all.take(i as int).filter_map(f).map_values(visible),
                name_sources: was.name_sources + all.take(i as int).filter_map(f).map_values(
                    sourced,
                ),
                ..was
            }),
        decreases specs@.len() - i,
    {
        let ghost so_far = all.take(i as int).filter_map(f);
        let ghost mid = script@;
        let ghost mid_wanted = texts(wanted@);
        proof {
            all.lemma_filter_map_take_succ(f, i as int);
        }
        if let Some(n) = child_by_field_name(tree, specs[i], "name") {
            let orig = node_text(tree, n, src);
            let external = match child_by_field_name(tree, specs[i], "alias") {
                Some(a) => node_text(tree, a, src),
                None => orig,
            };
            let ghost pair = (orig@, external@);
            assert(all.take(i + 1).filter_map(f) =~= so_far.push(pair));
            script.exports.push(external.to_owned());
            script.name_sources.push((external.to_owned(), spec.clone(), Some(orig.to_owned())));
            wanted.push(orig.to_owned());
            assert(texts(wanted@) =~= mid_wanted.push(orig@));
            assert(texts(wanted@) =~= so_far.push(pair).map_values(origs));
            assert(texts(script.exports@) =~= mid.exports.push(external@));
            assert(texts(script.exports@) =~= was.exports + so_far.push(pair).map_values(visible));
            assert(name_views(script.name_sources@) =~= mid.name_sources.push(
                (external@, spec@, Want::Name(orig@)),
            ));
            assert(name_views(script.name_sources@) =~= was.name_sources + so_far.push(
                pair,
            ).map_values(sourced));
        } else {
            assert(all.take(i + 1).filter_map(f) =~= so_far);
        }
        i = i + 1;
    }
    assert(all.take(all.len() as int) =~= all);
    let ghost before = script@.edges;
    let ghost e = (spec@, Wanted::Named(texts(wanted@)));
    script.edges.push((spec, ImportWant::Named(wanted)));
    assert(edge_views(script.edges@) =~= before.push(e));
}

/// Takes note of an export statement with a source.
fn handle_reexport(tree: &SyntaxTree, node: usize, src: &str, spec: String, script: &mut Script)
    requires
        tree.wf(),
        node < tree@.len(),
    ensures
        final(script)@ == after_reexport(tree@, src@, node as int, spec@, old(script)@),
{
    let ghost was = script@;
    script.has_reexports = true;
    if let Some(clause) = first_child_of_kind(tree, node, "export_clause") {
        reexport_clause(tree, clause, src, spec, script);
        return ;
    }
    let ghost e = (spec@, Wanted::All);
    match first_child_of_kind(tree, node, "namespace_export") {
        Some(ns) => {
            let kinds: [&str; 1] = ["identifier"];
            proof {
                assert(strs(kinds@) =~= seq!["identifier"@]);
            }
            if let Some(ident) = first_named_child_of_kinds(tree, ns, &kinds) {
                let alias = node_text(tree, ident, src);
                script.exports.push(alias.to_owned());
                script.name_sources.push((alias.to_owned(), spec.clone(), None));
                assert(texts(script.exports@) =~= was.exports.push(alias@));
                assert(name_views(script.name_sources@) =~= was.name_sources.push(
                    (alias@, spec@, Want::All),
                ));
            }
        },
        None => {
            script.exports.push("*".to_owned());
            script.wildcards.push(spec.clone());
            assert(texts(script.exports@) =~= was.exports.push("*"@));
            assert(texts(script.wildcards@) =~= was.wildcards.push(spec@));
        },
    }
    script.edges.push((spec, ImportWant::All));
    assert(edge_views(script.edges@) =~= was.edges.push(e));
}

/// Takes note of an export statement.
pub fn handle_export_statement(tree: &SyntaxTree, node: usize, src: &str, script: &mut Script)
    requires
        tree.wf(),
        node < tree@.len(),
    ensures
        final(script)@ == (match export_source(tree@, src@, node as int) {
            Some(spec) => after_reexport(tree@, src@, node as int, spec, old(script)@),
            None => after_local_export(tree@, src@, node as int, old(script)@),
        }),
{
    let source_spec = match child_by_field_name(tree, node, "source") {
        Some(s) => string_literal_content(tree, s, src),
        None => None,
    };
    if let Some(spec) = source_spec {
        handle_reexport(tree, node, src, spec, script);
        return ;
    }
    let ghost was = script@;
    if has_child_kind(tree, node, "default") {
        script.has_local_exports = true;
        script.exports.push("default".to_owned());
        assert(texts(script.exports@) =~= was.exports.push("default"@));
        return ;
    }
    if let Some(decl) = child_by_field_name(tree, node, "declaration") {
        script.has_local_exports = true;
        collect_declared_names(tree, decl, src, &mut script.exports);
        return ;
    }
    if let Some(clause) = first_child_of_kind(tree, node, "export_clause") {
        script.has_local_exports = true;
        let specs = children_of_kind(tree, clause, "export_specifier");
        let ghost all = numbers(specs@);
        let ghost f = local_name(tree@, src@);
        let mut i: usize = 0;
        assert(all.take(0) =~= Seq::<int>::empty());
        assert(texts(script.exports@) =~= was.exports + all.take(0).filter_map(f));
        while i < specs.len()
            invariant
                i <= specs@.len(),
                tree.wf(),
                all == numbers(specs@),
                f == local_name(tree@, src@),
                forall|k: int| 0 <= k < specs@.len() ==> #[trigger] specs@[k] < tree@.len(),
                script@ == (ScriptView {
                    exports: was.exports + all.take(i as int).filter_map(f),
                    has_local_exports: true,
                    ..was
                }),
            decreases specs@.len() - i,
        {
            let ghost mid = texts(script.exports@);
            proof {
                all.lemma_filter_map_take_succ(f, i as int);
            }
            let name = match child_by_field_name(tree, specs[i], "alias") {
                Some(a) => Some(a),
                None => child_by_field_name(tree, specs[i], "name"),
            };
            if let Some(n) = name {
                let text = node_text(tree, n, src);
                script.exports.push(text.to_owned());
                assert(texts(script.exports@) =~= mid.push(text@));
            }
            assert(texts(script.exports@) =~= was.exports + all.take(i + 1).filter_map(f));
            i = i + 1;
        }
        assert(all.take(all.len() as int) =~= all);
    }
}

/// What a script states, its exports in order and each once.
pub fn scan(tree: &SyntaxTree, src: &str) -> (r: Script)
    requires
        tree.wf(),
    ensures
        r@ == script_of(tree@, src@),
{
    let order = tree.visits();
    let ghost all = numbers(order@);
    let mut script = Script {
        edges: Vec::new(),
        exports: Vec::new(),
        has_local_exports: false,
        has_reexports: false,
        name_sources: Vec::new(),
        wildcards: Vec::new(),
    };
    assert(all.take(0) =~= Seq::<int>::empty());
    assert(script@ =~= blank());
    let mut i: usize = 0;
    while i < order.len()
        invariant
            i <= order@.len(),
            tree.wf(),
            all == numbers(order@),
            forall|k: int| 0 <= k < order@.len() ==> #[trigger] order@[k] < tree@.len(),
            script@ == after_nodes(tree@, src@, all.take(i as int)),
        decreases order@.len() - i,
    {
        let node = order[i];
        let ghost was = script@;
        assert(all.take(i + 1).drop_last() =~= all.take(i as int));
        assert(all.take(i + 1).last() == node);
        if is_kind(tree, node, "import_statement") {
            handle_import_statement(tree, node, src, &mut script);
        } else if is_kind(tree, node, "export_statement") {
            handle_export_statement(tree, node, src, &mut script);
        } else if is_kind(tree, node, "call_expression") {
            if let Some(spec) = require_or_dynamic_import_source(tree, node, src) {
                let ghost e = (spec@, Wanted::All);
                script.edges.push((spec, ImportWant::All));
                assert(edge_views(script.edges@) =~= was.edges.push(e));
            }
        } else if is_kind(tree, node, "assignment_expression") {
            handle_commonjs_assignment(tree, node, src, &mut script);
        }
        i = i + 1;
    }
    assert(all.take(all.len() as int) =~= all);
    let ghost found = script@;
    let mut exports = TextSet::new();
    let ghost list = texts(script.exports@);
    i = 0;
    assert(list.take(0).to_set() =~= Set::<Text>::empty());
    while i < script.exports.len()
        invariant
            i <= script.exports@.len(),
            list == texts(script.exports@),
            exports.wf(),
            exports@ == list.take(i as int).to_set(),
        decreases script.exports@.len() - i,
    {
        assert(list.take(i + 1) =~= list.take(i as int).push(list[i as int]));
        proof {
            list.take(i as int).lemma_push_to_set_commute(list[i as int]);
        }
        exports.insert(script.exports[i].clone());
        i = i + 1;
    }
    assert(list.take(list.len() as int) =~= list);
    proof {
        lemma_in_order(texts(exports.items@), list.to_set());
    }
    script.exports = exports.items;
    script
}

/// An edge with its specifier resolved.
pub open spec fn linked_edge(scope: Scope, disk: Map<Text, Option<Text>>) -> spec_fn((Text, Wanted)) -> Edge {
    |e: (Text, Wanted)| Edge { target: specifier_target(scope, disk, e.0), want: e.1 }
}

/// A re-exported name with its specifier resolved.
pub open spec fn linked_name(scope: Scope, disk: Map<Text, Option<Text>>) -> spec_fn((Text, Text, Want)) -> (
    Text,
    (Target, Want),
) {
    |e: (Text, Text, Want)| (e.0, (specifier_target(scope, disk, e.1), e.2))
}

/// A specifier resolved.
pub open spec fn linked_specifier(scope: Scope, disk: Map<Text, Option<Text>>) -> spec_fn(Text) -> Target {
    |spec: Text| specifier_target(scope, disk, spec)
}

/// What a script states, with its specifiers resolved.
pub open spec fn linked(script: ScriptView, scope: Scope, disk: Map<Text, Option<Text>>) -> Facts {
    Facts {
        dependencies: script.edges.map_values(linked_edge(scope, disk)),
        exports: script.exports,
        has_local_exports: script.has_local_exports,
        has_reexports: script.has_reexports,
        name_sources: script.name_sources.map_values(linked_name(scope, disk)),
        wildcard_fallbacks: script.wildcards.map_values(linked_specifier(scope, disk)),
    }
}

/// The specifiers of a script, in the order in which it holds them.
pub open spec fn specifiers(script: ScriptView) -> Seq<Text> {
    script.edges.map_values(|e: (Text, Wanted)| e.0) + script.name_sources.map_values(
        |e: (Text, Text, Want)| e.1,
    ) + script.wildcards
}

/// The files that a specifier can stand for.
pub open spec fn probed(scope: Scope) -> spec_fn(Text) -> Seq<Text> {
    |spec: Text| specifier_candidates(scope, spec)
}

/// Every file that is looked for when a script is linked.
pub open spec fn probes(script: ScriptView, scope: Scope) -> Seq<Text> {
    specifiers(script).flat_map(probed(scope))
}

/// What a script comes to depends on what is known of the files that are
/// looked for alone.
pub proof fn facts_ask_probes_only(
    script: ScriptView,
    scope: Scope,
    a: Map<Text, Option<Text>>,
    b: Map<Text, Option<Text>>,
)
    requires
        agree_on(a, b, probes(script, scope)),
    ensures
        linked(script, scope, a) == linked(script, scope, b),
{
    let all = specifiers(script);
    lemma_agree_parts(a, b, all, probed(scope));
    assert forall|k: int| 0 <= k < all.len() implies specifier_target(scope, a, #[trigger] all[k])
        == specifier_target(scope, b, all[k]) by {
        assert(agree_on(a, b, probed(scope)(all[k])));
        target_asks_candidates_only(scope, a, b, all[k]);
    }
    let n = script.edges.len() as int;
    let m = script.name_sources.len() as int;
    assert forall|i: int| 0 <= i < n implies specifier_target(scope, a, (#[trigger] script.edges[i]).0)
        == specifier_target(scope, b, script.edges[i].0) by {
        assert(all[i] == script.edges[i].0);
    }
    assert forall|i: int| 0 <= i < m implies specifier_target(
        scope,
        a,
        (#[trigger] script.name_sources[i]).1,
    ) == specifier_target(scope, b, script.name_sources[i].1) by {
        assert(all[n + i] == script.name_sources[i].1);
    }
    assert forall|i: int| 0 <= i < script.wildcards.len() implies specifier_target(
        scope,
        a,
        #[trigger] script.wildcards[i],
    ) == specifier_target(scope, b, script.wildcards[i]) by {
        assert(all[n + m + i] == script.wildcards[i]);
    }
    assert(linked(script, scope, a) =~= linked(script, scope, b));
}

/// Appends the files that a specifier can stand for.
fn push_candidates(
    root: &str,
    importer_dir: &str,
    spec: &str,
    pkg_index: &JsPackageIndex,
    ts_paths_index: &TsPathsIndex,
    out: &mut Vec<String>,
)
    ensures
        texts(final(out)@) == texts(old(out)@) + specifier_candidates(
            (Scope {
                root: root@,
                dir: importer_dir@,
                packages: pkg_index@,
                configs: ts_paths_index@,
            }),
            spec@,
        ),
{
    let ghost was = texts(out@);
    let mut more = list_candidates(root, importer_dir, spec, pkg_index, ts_paths_index);
    let ghost added = texts(more@);
    out.append(&mut more);
    assert(texts(out@) =~= was + added);
}

/// Every file that is looked for when a script is linked.
pub fn list_probes(
    script: &Script,
    root: &str,
    importer_dir: &str,
    pkg_index: &JsPackageIndex,
    ts_paths_index: &TsPathsIndex,
) -> (r: Vec<String>)
    ensures
        texts(r@) == probes(
            script@,
            (Scope {
                root: root@,
                dir: importer_dir@,
                packages: pkg_index@,
                configs: ts_paths_index@,
            }),
        ),
{
    let ghost scope = Scope {
        root: root@,
        dir: importer_dir@,
        packages: pkg_index@,
        configs: ts_paths_index@,
    };
    let ghost all = specifiers(script@);
    let ghost f = probed(scope);
    let n = script.edges.len();
    let m = script.name_sources.len();
    let w = script.wildcards.len();
    let mut out: Vec<String> = Vec::new();
    assert(all.take(0) =~= Seq::<Text>::empty());
    assert(texts(out@) =~= all.take(0).flat_map(f));
    let mut i: usize = 0;
    while i < n
        invariant
            i <= n == script.edges@.len(),
            all == specifiers(script@),
            scope == (Scope {
                root: root@,
                dir: importer_dir@,
                packages: pkg_index@,
                configs: ts_paths_index@,
            }),
            f == probed(scope),
            texts(out@) == all.take(i as int).flat_map(f),
        decreases n - i,
    {
        proof {
            assert(all[i as int] == script.edges@[i as int].0@);
            all.lemma_flat_map_take_append(f, i as int);
        }
        push_candidates(root, importer_dir, script.edges[i].0.as_str(), pkg_index, ts_paths_index, &mut out);
        i = i + 1;
    }
    i = 0;
    while i < m
        invariant
            i <= m == script.name_sources@.len(),
            n == script.edges@.len(),
            all == specifiers(script@),
            scope == (Scope {
                root: root@,
                dir: importer_dir@,
                packages: pkg_index@,
                configs: ts_paths_index@,
            }),
            f == probed(scope),
            texts(out@) == all.take(n + i).flat_map(f),
        decreases m - i,
    {
        proof {
            assert(all[n + i] == script.name_sources@[i as int].1@);
            all.lemma_flat_map_take_append(f, n + i);
        }
        push_candidates(
            root,
            importer_dir,
            script.name_sources[i].1.as_str(),
            pkg_index,
            ts_paths_index,
            &mut out,
        );
        i = i + 1;
    }
    i = 0;
    while i < w
        invariant
            i <= w == script.wildcards@.len(),
            n == script.edges@.len(),
            m == script.name_sources@.len(),
            all == specifiers(script@),
            scope == (Scope {
                root: root@,
                dir: importer_dir@,
                packages: pkg_index@,
                configs: ts_paths_index@,
            }),
            f == probed(scope),
            texts(out@) == all.take(n + m + i).flat_map(f),
        decreases w - i,
    {
        proof {
            assert(all[n + m + i] == script.wildcards@[i as int]@);
            all.lemma_flat_map_take_append(f, n + m + i);
        }
        push_candidates(root, importer_dir, script.wildcards[i].as_str(), pkg_index, ts_paths_index, &mut out);
        i = i + 1;
    }
    assert(all.take(n + m + w) =~= all);
    out
}

/// What a script states, with its specifiers resolved.
pub fn link(
    script: &Script,
    root: &str,
    importer_dir: &str,
    pkg_index: &JsPackageIndex,
    ts_paths_index: &TsPathsIndex,
    disk: &Disk,
) -> (r: FileFacts)
    ensures
        r@ == linked(
            script@,
            (Scope {
                root: root@,
                dir: importer_dir@,
                packages: pkg_index@,
                configs: ts_paths_index@,
            }),
            disk@,
        ),
{
    let ghost scope = Scope {
        root: root@,
        dir: importer_dir@,
        packages: pkg_index@,
        configs: ts_paths_index@,
    };
    let mut dependencies: Vec<Dependency> = Vec::new();
    let mut i: usize = 0;
    while i < script.edges.len()
        invariant
            i <= script.edges@.len(),
            scope == (Scope {
                root: root@,
                dir: importer_dir@,
                packages: pkg_index@,
                configs: ts_paths_index@,
            }),
            edges(dependencies@) =~= script@.edges.map_values(linked_edge(scope, disk@)).take(i as int),
        decreases script.edges@.len() - i,
    {
        let ghost was = edges(dependencies@);
        let target = resolve_specifier(
            root,
            importer_dir,
            script.edges[i].0.as_str(),
            pkg_index,
            ts_paths_index,
            disk,
        );
        let dependency = Dependency { target, want: script.edges[i].1.copy() };
        let ghost e = dependency@;
        dependencies.push(dependency);
        assert(edges(dependencies@) =~= was.push(e));
        i = i + 1;
    }
    let mut name_sources: Vec<(String, NameSource)> = Vec::new();
    i = 0;
    while i < script.name_sources.len()
        invariant
            i <= script.name_sources@.len(),
            scope == (Scope {
                root: root@,
                dir: importer_dir@,
                packages: pkg_index@,
                configs: ts_paths_index@,
            }),
            sources(name_sources@) =~= script@.name_sources.map_values(
                linked_name(scope, disk@),
            ).take(i as int),
        decreases script.name_sources@.len() - i,
    {
        let ghost was = sources(name_sources@);
        let target = resolve_specifier(
            root,
            importer_dir,
            script.name_sources[i].1.as_str(),
            pkg_index,
            ts_paths_index,
            disk,
        );
        let name = match &script.name_sources[i].2 {
            Some(n) => Some(n.clone()),
            None => None,
        };
        let source = NameSource { target, name };
        let ghost e = (script.name_sources@[i as int].0@, source@);
        name_sources.push((script.name_sources[i].0.clone(), source));
        assert(sources(name_sources@) =~= was.push(e));
        i = i + 1;
    }
    let mut wildcards: Vec<DepRef> = Vec::new();
    i = 0;
    while i < script.wildcards.len()
        invariant
            i <= script.wildcards@.len(),
            scope == (Scope {
                root: root@,
                dir: importer_dir@,
                packages: pkg_index@,
                configs: ts_paths_index@,
            }),
            targets(wildcards@) =~= script@.wildcards.map_values(
                linked_specifier(scope, disk@),
            ).take(i as int),
        decreases script.wildcards@.len() - i,
    {
        let ghost was = targets(wildcards@);
        let target = resolve_specifier(
            root,
            importer_dir,
            script.wildcards[i].as_str(),
            pkg_index,
            ts_paths_index,
            disk,
        );
        let ghost e = target@;
        wildcards.push(target);
        assert(targets(wildcards@) =~= was.push(e));
        i = i + 1;
    }
    let facts = FileFacts {
        dependencies,
        exports: copy_texts(&script.exports),
        has_local_exports: script.has_local_exports,
        has_reexports: script.has_reexports,
        name_sources,
        wildcard_fallbacks: wildcards,
    };
    assert(facts@ =~= linked(script@, scope, disk@));
    facts
}

/// What a script comes to.
pub fn analyze(
    tree: &SyntaxTree,
    src: &str,
    root: &str,
    importer_dir: &str,
    pkg_index: &JsPackageIndex,
    ts_paths_index: &TsPathsIndex,
    disk: &Disk,
) -> (r: FileFacts)
    requires
        tree.wf(),
    ensures
        r@ == linked(
            script_of(tree@, src@),
            (Scope {
                root: root@,
                dir: importer_dir@,
                packages: pkg_index@,
                configs: ts_paths_index@,
            }),
            disk@,
        ),
{
    let script = scan(tree, src);
    link(&script, root, importer_dir, pkg_index, ts_paths_index, disk)
}

} // verus!
