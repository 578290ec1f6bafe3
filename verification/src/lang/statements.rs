//! What each statement of a script adds to what the script states.
use vstd::prelude::*;
use vstd::seq_lib::seq_to_set_is_finite;

use crate::facts::{Want, Wanted};
use crate::lang::js_ts::{
    after_node, after_nodes, assigned_export, clause_names, clause_pairs, declared_names, declarator_name,
    export_source, linked, local_name, name_of, reexported, script_of, single_declarations, ScriptView,
};
use crate::lang::specifier::{specifier_target, Scope};
use crate::lists::{
    lemma_from_filter_map, lemma_from_flat_map, lemma_in_filter_map, lemma_in_flat_map, lemma_more, lemma_one_more,
};
use crate::order::lemma_in_order_lists;
use crate::syntax::{children, every_node_is_visited_once, is_preorder, visits, NodeView};
use crate::text::Text;
use crate::tsutil::{
    field_child, first_of, kind_child, kind_children, literal, named_of_kinds, of_kind, text_of,
};

verus! {

/// Whether `b` states all that `a` does.
#[verifier::opaque]
spec fn grows(a: ScriptView, b: ScriptView) -> bool {
    &&& forall|e: (Text, Wanted)| #[trigger] a.edges.contains(e) ==> b.edges.contains(e)
    &&& forall|n: Text| #[trigger] a.exports.contains(n) ==> b.exports.contains(n)
    &&& forall|s: (Text, Text, Want)| #[trigger] a.name_sources.contains(s) ==> b.name_sources.contains(s)
    &&& forall|s: Text| #[trigger] a.wildcards.contains(s) ==> b.wildcards.contains(s)
    &&& a.has_local_exports ==> b.has_local_exports
    &&& a.has_reexports ==> b.has_reexports
}

proof fn lemma_node_grows(t: Seq<NodeView>, src: Text, node: int, acc: ScriptView)
    ensures
        grows(acc, after_node(t, src, node, acc)),
{
    reveal(grows);
    let b = after_node(t, src, node, acc);
    assert forall|e: (Text, Wanted)| #[trigger] acc.edges.contains(e) implies b.edges.contains(e) by {
        if b.edges != acc.edges {
            lemma_one_more(acc.edges, b.edges.last());
            assert(b.edges =~= acc.edges.push(b.edges.last()));
        }
    }
    assert forall|n: Text| #[trigger] acc.exports.contains(n) implies b.exports.contains(n) by {
        let more = b.exports.skip(acc.exports.len() as int);
        lemma_more(acc.exports, more);
        assert(b.exports =~= acc.exports + more);
    }
    assert forall|s: (Text, Text, Want)| #[trigger] acc.name_sources.contains(s) implies b.name_sources.contains(
        s,
    ) by {
        let more = b.name_sources.skip(acc.name_sources.len() as int);
        lemma_more(acc.name_sources, more);
        assert(b.name_sources =~= acc.name_sources + more);
    }
    assert forall|s: Text| #[trigger] acc.wildcards.contains(s) implies b.wildcards.contains(s) by {
        if b.wildcards != acc.wildcards {
            lemma_one_more(acc.wildcards, b.wildcards.last());
            assert(b.wildcards =~= acc.wildcards.push(b.wildcards.last()));
        }
    }
}

proof fn lemma_kept(t: Seq<NodeView>, src: Text, order: Seq<int>, k: int)
    requires
        0 <= k < order.len(),
    ensures
        grows(after_node(t, src, order[k], after_nodes(t, src, order.take(k))), after_nodes(t, src, order)),
    decreases order.len(),
{
    reveal(grows);
    let front = order.drop_last();
    if k == order.len() - 1 {
        assert(order.take(k) =~= front);
    } else {
        lemma_kept(t, src, front, k);
        assert(front.take(k) =~= order.take(k));
        lemma_node_grows(t, src, order.last(), after_nodes(t, src, front));
    }
}

/// What a node adds to what came before it, which is `acc`, is stated.
proof fn lemma_stated(t: Seq<NodeView>, src: Text, node: int) -> (acc: ScriptView)
    requires
        is_preorder(t),
        0 <= node < t.len(),
    ensures
        grows(after_node(t, src, node, acc), script_of(t, src)),
{
    every_node_is_visited_once(t);
    let order = visits(t);
    assert(order.contains(node));
    let k = choose|k: int| 0 <= k < order.len() && order[k] == node;
    lemma_kept(t, src, order, k);
    let all = after_nodes(t, src, order);
    let acc = after_nodes(t, src, order.take(k));
    let one = after_node(t, src, node, acc);
    assert(grows(one, script_of(t, src))) by {
        reveal(grows);
        seq_to_set_is_finite(all.exports);
        lemma_in_order_lists(all.exports.to_set());
        assert forall|n: Text| #[trigger] one.exports.contains(n) implies script_of(t, src).exports.contains(n) by {
            assert(all.exports.contains(n));
            assert(all.exports.to_set().contains(n));
            assert(script_of(t, src).exports.to_set().contains(n));
        }
    }
    acc
}

proof fn lemma_edge(a: ScriptView, b: ScriptView, e: (Text, Wanted))
    requires
        grows(a, b),
        a.edges.contains(e),
    ensures
        b.edges.contains(e),
{
    reveal(grows);
}

proof fn lemma_export(a: ScriptView, b: ScriptView, n: Text)
    requires
        grows(a, b),
        a.exports.contains(n),
    ensures
        b.exports.contains(n),
{
    reveal(grows);
}

proof fn lemma_source(a: ScriptView, b: ScriptView, s: (Text, Text, Want))
    requires
        grows(a, b),
        a.name_sources.contains(s),
    ensures
        b.name_sources.contains(s),
{
    reveal(grows);
}

proof fn lemma_wildcard(a: ScriptView, b: ScriptView, s: Text)
    requires
        grows(a, b),
        a.wildcards.contains(s),
    ensures
        b.wildcards.contains(s),
{
    reveal(grows);
}

proof fn lemma_marks(a: ScriptView, b: ScriptView)
    requires
        grows(a, b),
    ensures
        a.has_local_exports ==> b.has_local_exports,
        a.has_reexports ==> b.has_reexports,
{
    reveal(grows);
}

/// The kinds of statements differ.
pub proof fn lemma_kinds()
    ensures
        "import_statement"@ != "export_statement"@,
        "import_statement"@ != "call_expression"@,
        "import_statement"@ != "assignment_expression"@,
        "export_statement"@ != "call_expression"@,
        "export_statement"@ != "assignment_expression"@,
        "call_expression"@ != "assignment_expression"@,
        "identifier"@ != "named_imports"@,
{
    reveal_strlit("import_statement");
    reveal_strlit("export_statement");
    reveal_strlit("call_expression");
    reveal_strlit("assignment_expression");
    reveal_strlit("identifier");
    reveal_strlit("named_imports");
    assert("import_statement"@[0] == 'i');
    assert("export_statement"@[0] == 'e');
    assert("call_expression"@[0] == 'c');
    assert("assignment_expression"@[0] == 'a');
    assert("identifier"@[0] == 'i');
    assert("named_imports"@[0] == 'n');
}

/// Whether a statement names a source, and it is this specifier.
pub open spec fn is_from(t: Seq<NodeView>, src: Text, node: int, spec: Text) -> bool {
    match field_child(t, node, "source"@) {
        Some(s) => literal(t, src, s) == Some(spec),
        None => false,
    }
}

/// Whether a statement names no source that can be read.
pub open spec fn is_from_nowhere(t: Seq<NodeView>, src: Text, node: int) -> bool {
    match field_child(t, node, "source"@) {
        Some(s) => literal(t, src, s) is None,
        None => true,
    }
}

/// `import 'spec'` and `import * as ns from 'spec'` need all of the source.
pub proof fn whole_imports_need_everything(t: Seq<NodeView>, src: Text, node: int, spec: Text)
    requires
        is_preorder(t),
        0 <= node < t.len(),
        t[node].kind == "import_statement"@,
        is_from(t, src, node, spec),
        match kind_child(t, node, "import_clause"@) {
            Some(clause) => kind_child(t, clause, "namespace_import"@) is Some,
            None => true,
        },
    ensures
        script_of(t, src).edges.contains((spec, Wanted::All)),
{
    let acc = lemma_stated(t, src, node);
    let now = after_node(t, src, node, acc);
    let all = script_of(t, src);
    lemma_marks(now, all);
    lemma_one_more(acc.edges, (spec, Wanted::All));
    lemma_edge(now, all, (spec, Wanted::All));
}

/// Whether an import clause asks for a name: the default one where it has an
/// identifier, and in braces the names as the source calls them, not as they are
/// called here.
pub open spec fn clause_asks(t: Seq<NodeView>, src: Text, clause: int, name: Text) -> bool {
    ||| name == "default"@ && exists|c: int| #[trigger]
        children(t, clause).contains(c) && t[c].kind == "identifier"@
    ||| exists|braces: int, one: int| #[trigger]
        in_braces(t, clause, braces, one) && match field_child(t, one, "name"@) {
            Some(n) => text_of(t, src, n) == name,
            None => false,
        }
}

/// Whether `one` is an import specifier in the braces of an import clause.
pub open spec fn in_braces(t: Seq<NodeView>, clause: int, braces: int, one: int) -> bool {
    &&& children(t, clause).contains(braces)
    &&& t[braces].kind == "named_imports"@
    &&& children(t, braces).contains(one)
    &&& t[one].kind == "import_specifier"@
}

/// The children of a kind are the children that are of the kind.
pub proof fn lemma_kind_children(t: Seq<NodeView>, node: int, kind: Text, c: int)
    ensures
        kind_children(t, node, kind).contains(c) <==> children(t, node).contains(c) && t[c].kind == kind,
{
    let all = children(t, node);
    let f = of_kind(t, kind);
    if all.contains(c) && t[c].kind == kind {
        let i = choose|i: int| 0 <= i < all.len() && all[i] == c;
        all.lemma_filter_contains(f, i);
    }
    if all.filter(f).contains(c) {
        let i = choose|i: int| 0 <= i < all.filter(f).len() && all.filter(f)[i] == c;
        all.lemma_filter_pred(f, i);
        all.lemma_filter_contains_rev(f, c);
    }
}

proof fn lemma_clause(t: Seq<NodeView>, src: Text, clause: int, name: Text)
    ensures
        children(t, clause).flat_map(clause_names(t, src)).contains(name) <==> clause_asks(t, src, clause, name),
{
    lemma_kinds();
    let all = children(t, clause);
    let f = clause_names(t, src);
    if all.flat_map(f).contains(name) {
        lemma_from_flat_map(all, f, name);
        let i = choose|i: int| 0 <= i < all.len() && f(#[trigger] all[i]).contains(name);
        let c = all[i];
        assert(all.contains(c));
        if t[c].kind == "identifier"@ {
            assert(f(c) == seq!["default"@]);
        } else {
            let kids = kind_children(t, c, "import_specifier"@);
            lemma_from_filter_map(kids, name_of(t, src), name);
            let j = choose|j: int| 0 <= j < kids.len() && name_of(t, src)(#[trigger] kids[j]) == Some(name);
            assert(kids.contains(kids[j]));
            lemma_kind_children(t, c, "import_specifier"@, kids[j]);
            assert(in_braces(t, clause, c, kids[j]));
        }
    }
    if clause_asks(t, src, clause, name) {
        if name == "default"@ && exists|c: int| #[trigger] all.contains(c) && t[c].kind == "identifier"@ {
            let c = choose|c: int| #[trigger] all.contains(c) && t[c].kind == "identifier"@;
            let i = choose|i: int| 0 <= i < all.len() && all[i] == c;
            assert(f(c) == seq!["default"@]);
            assert(seq!["default"@][0] == name);
            lemma_in_flat_map(all, f, i, name);
        } else {
            let (braces, one) = choose|braces: int, one: int| #[trigger]
                in_braces(t, clause, braces, one) && match field_child(t, one, "name"@) {
                    Some(n) => text_of(t, src, n) == name,
                    None => false,
                };
            let i = choose|i: int| 0 <= i < all.len() && all[i] == braces;
            lemma_kind_children(t, braces, "import_specifier"@, one);
            let kids = kind_children(t, braces, "import_specifier"@);
            let j = choose|j: int| 0 <= j < kids.len() && kids[j] == one;
            lemma_in_filter_map(kids, name_of(t, src), j);
            lemma_in_flat_map(all, f, i, name);
        }
    }
}

/// Whether an edge asks for exactly the names that an import clause asks for.
pub open spec fn asks_as(t: Seq<NodeView>, src: Text, clause: int, wanted: Wanted) -> bool {
    &&& wanted is Named
    &&& forall|name: Text| #[trigger] wanted->Named_0.contains(name) <==> clause_asks(t, src, clause, name)
}

/// An import with a clause, but for a namespace import, needs the names that the
/// clause asks for and no others.
pub proof fn named_imports_need_their_names(t: Seq<NodeView>, src: Text, node: int, spec: Text, clause: int)
    requires
        is_preorder(t),
        0 <= node < t.len(),
        t[node].kind == "import_statement"@,
        is_from(t, src, node, spec),
        kind_child(t, node, "import_clause"@) == Some(clause),
        kind_child(t, clause, "namespace_import"@) is None,
    ensures
        exists|wanted: Wanted| #[trigger]
            script_of(t, src).edges.contains((spec, wanted)) && asks_as(t, src, clause, wanted),
{
    let acc = lemma_stated(t, src, node);
    let now = after_node(t, src, node, acc);
    let all = script_of(t, src);
    lemma_marks(now, all);
    let wanted = Wanted::Named(children(t, clause).flat_map(clause_names(t, src)));
    lemma_one_more(acc.edges, (spec, wanted));
    lemma_edge(now, all, (spec, wanted));
    assert forall|name: Text| #[trigger] wanted->Named_0.contains(name) <==> clause_asks(t, src, clause, name) by {
        lemma_clause(t, src, clause, name);
    }
}

/// `require('spec')` and `import('spec')` need all of the source.
pub proof fn calls_need_everything(t: Seq<NodeView>, src: Text, node: int, f: int, args: int, s: int, spec: Text)
    requires
        is_preorder(t),
        0 <= node < t.len(),
        t[node].kind == "call_expression"@,
        field_child(t, node, "function"@) == Some(f),
        (t[f].kind == "identifier"@ && text_of(t, src, f) == "require"@) || t[f].kind == "import"@,
        field_child(t, node, "arguments"@) == Some(args),
        kind_child(t, args, "string"@) == Some(s),
        literal(t, src, s) == Some(spec),
    ensures
        script_of(t, src).edges.contains((spec, Wanted::All)),
{
    lemma_kinds();
    let acc = lemma_stated(t, src, node);
    let now = after_node(t, src, node, acc);
    let all = script_of(t, src);
    lemma_marks(now, all);
    lemma_one_more(acc.edges, (spec, Wanted::All));
    lemma_edge(now, all, (spec, Wanted::All));
}

/// Of `export { x as y } from 'spec'`, `y` is exported and comes from the source
/// as `x`, which the script needs of it; without an alias both are `x`.
pub proof fn reexported_names_have_sources(
    t: Seq<NodeView>,
    src: Text,
    node: int,
    spec: Text,
    clause: int,
    one: int,
    name: int,
)
    requires
        is_preorder(t),
        0 <= node < t.len(),
        t[node].kind == "export_statement"@,
        is_from(t, src, node, spec),
        kind_child(t, node, "export_clause"@) == Some(clause),
        children(t, clause).contains(one),
        t[one].kind == "export_specifier"@,
        field_child(t, one, "name"@) == Some(name),
    ensures
        ({
            let there = text_of(t, src, name);
            let here = match field_child(t, one, "alias"@) {
                Some(a) => text_of(t, src, a),
                None => there,
            };
            let s = script_of(t, src);
            &&& s.exports.contains(here)
            &&& s.name_sources.contains((here, spec, Want::Name(there)))
            &&& s.has_reexports
            &&& exists|names: Seq<Text>| #[trigger]
                s.edges.contains((spec, Wanted::Named(names))) && names.contains(there)
        }),
{
    lemma_kinds();
    let acc = lemma_stated(t, src, node);
    let now = after_node(t, src, node, acc);
    let all = script_of(t, src);
    lemma_marks(now, all);
    let there = text_of(t, src, name);
    let here = match field_child(t, one, "alias"@) {
        Some(a) => text_of(t, src, a),
        None => there,
    };
    lemma_kind_children(t, clause, "export_specifier"@, one);
    let kids = kind_children(t, clause, "export_specifier"@);
    let j = choose|j: int| 0 <= j < kids.len() && kids[j] == one;
    lemma_in_filter_map(kids, reexported(t, src), j);
    let pairs = clause_pairs(t, src, clause);
    let k = choose|k: int| 0 <= k < pairs.len() && pairs[k] == (there, here);
    let origs = pairs.map_values(|p: (Text, Text)| p.0);
    let visible = pairs.map_values(|p: (Text, Text)| p.1);
    let sources = pairs.map_values(|p: (Text, Text)| (p.1, spec, Want::Name(p.0)));
    assert(origs[k] == there);
    assert(visible[k] == here);
    assert(sources[k] == (here, spec, Want::Name(there)));
    lemma_more(acc.exports, visible);
    lemma_more(acc.name_sources, sources);
    lemma_one_more(acc.edges, (spec, Wanted::Named(origs)));
    assert(origs.contains(there));
    assert(visible.contains(here));
    assert(sources.contains((here, spec, Want::Name(there))));
    lemma_edge(now, all, (spec, Wanted::Named(origs)));
    lemma_export(now, all, here);
    lemma_source(now, all, (here, spec, Want::Name(there)));
}

/// Of `export * as ns from 'spec'`, `ns` is exported and stands for all of the
/// source, which the script needs.
pub proof fn reexported_namespaces_stand_for_everything(
    t: Seq<NodeView>,
    src: Text,
    node: int,
    spec: Text,
    ns: int,
    ident: int,
)
    requires
        is_preorder(t),
        0 <= node < t.len(),
        t[node].kind == "export_statement"@,
        is_from(t, src, node, spec),
        kind_child(t, node, "export_clause"@) is None,
        kind_child(t, node, "namespace_export"@) == Some(ns),
        first_of(children(t, ns), named_of_kinds(t, seq!["identifier"@])) == Some(ident),
    ensures
        script_of(t, src).exports.contains(text_of(t, src, ident)),
        script_of(t, src).name_sources.contains((text_of(t, src, ident), spec, Want::All)),
        script_of(t, src).has_reexports,
        script_of(t, src).edges.contains((spec, Wanted::All)),
{
    lemma_kinds();
    let acc = lemma_stated(t, src, node);
    let now = after_node(t, src, node, acc);
    let all = script_of(t, src);
    lemma_marks(now, all);
    lemma_one_more(acc.exports, text_of(t, src, ident));
    lemma_one_more(acc.name_sources, (text_of(t, src, ident), spec, Want::All));
    lemma_export(now, all, text_of(t, src, ident));
    lemma_source(now, all, (text_of(t, src, ident), spec, Want::All));
    lemma_one_more(acc.edges, (spec, Wanted::All));
    lemma_edge(now, all, (spec, Wanted::All));
}

/// `export * from 'spec'` exports names that are not known, any of which may come
/// from the source, and needs all of it.
pub proof fn wildcard_reexports_are_open(t: Seq<NodeView>, src: Text, node: int, spec: Text)
    requires
        is_preorder(t),
        0 <= node < t.len(),
        t[node].kind == "export_statement"@,
        is_from(t, src, node, spec),
        kind_child(t, node, "export_clause"@) is None,
        kind_child(t, node, "namespace_export"@) is None,
    ensures
        script_of(t, src).exports.contains("*"@),
        script_of(t, src).wildcards.contains(spec),
        script_of(t, src).has_reexports,
        script_of(t, src).edges.contains((spec, Wanted::All)),
{
    lemma_kinds();
    let acc = lemma_stated(t, src, node);
    let now = after_node(t, src, node, acc);
    let all = script_of(t, src);
    lemma_marks(now, all);
    lemma_one_more(acc.exports, "*"@);
    lemma_one_more(acc.wildcards, spec);
    lemma_export(now, all, "*"@);
    lemma_wildcard(now, all, spec);
    lemma_one_more(acc.edges, (spec, Wanted::All));
    lemma_edge(now, all, (spec, Wanted::All));
}

/// `export default ..` exports the default name, as one of the script's own.
pub proof fn default_exports_are_own(t: Seq<NodeView>, src: Text, node: int)
    requires
        is_preorder(t),
        0 <= node < t.len(),
        t[node].kind == "export_statement"@,
        is_from_nowhere(t, src, node),
        kind_child(t, node, "default"@) is Some,
    ensures
        script_of(t, src).exports.contains("default"@),
        script_of(t, src).has_local_exports,
{
    lemma_kinds();
    let acc = lemma_stated(t, src, node);
    let now = after_node(t, src, node, acc);
    let all = script_of(t, src);
    lemma_marks(now, all);
    lemma_one_more(acc.exports, "default"@);
    lemma_export(now, all, "default"@);
}

/// Whether a declaration is one of those that declare one name: of a function, a
/// generator, a class, an interface, a type or an enum.
pub open spec fn declares_one(kind: Text) -> bool {
    ||| kind == "function_declaration"@
    ||| kind == "generator_function_declaration"@
    ||| kind == "class_declaration"@
    ||| kind == "interface_declaration"@
    ||| kind == "type_alias_declaration"@
    ||| kind == "enum_declaration"@
}

/// The kinds of declarations that declare one name.
pub proof fn lemma_declares_one(kind: Text)
    ensures
        single_declarations().contains(kind) <==> declares_one(kind),
{
    let all = single_declarations();
    assert(all[0] == "function_declaration"@);
    assert(all[1] == "generator_function_declaration"@);
    assert(all[2] == "class_declaration"@);
    assert(all[3] == "interface_declaration"@);
    assert(all[4] == "type_alias_declaration"@);
    assert(all[5] == "enum_declaration"@);
}

/// An exported declaration makes an export of the script's own: of what it
/// declares by name, of each variable by its name, and of names that are not known
/// otherwise.
pub proof fn exported_declarations_are_own(t: Seq<NodeView>, src: Text, node: int, decl: int, one: int, name: int)
    requires
        is_preorder(t),
        0 <= node < t.len(),
        t[node].kind == "export_statement"@,
        is_from_nowhere(t, src, node),
        kind_child(t, node, "default"@) is None,
        field_child(t, node, "declaration"@) == Some(decl),
    ensures
        script_of(t, src).has_local_exports,
        declares_one(t[decl].kind) && field_child(t, decl, "name"@) == Some(name) ==> script_of(
            t,
            src,
        ).exports.contains(text_of(t, src, name)),
        (t[decl].kind == "lexical_declaration"@ || t[decl].kind == "variable_declaration"@) && children(
            t,
            decl,
        ).contains(one) && t[one].kind == "variable_declarator"@ && field_child(t, one, "name"@) == Some(name)
            ==> script_of(t, src).exports.contains(
            if t[name].kind == "identifier"@ {
                text_of(t, src, name)
            } else {
                "*"@
            },
        ),
        !declares_one(t[decl].kind) && t[decl].kind != "lexical_declaration"@ && t[decl].kind
            != "variable_declaration"@ ==> script_of(t, src).exports.contains("*"@),
{
    lemma_kinds();
    let acc = lemma_stated(t, src, node);
    let now = after_node(t, src, node, acc);
    let all = script_of(t, src);
    lemma_marks(now, all);
    let names = declared_names(t, src, decl);
    lemma_more(acc.exports, names);
    lemma_declares_one(t[decl].kind);
    lemma_declares_one("lexical_declaration"@);
    lemma_declares_one("variable_declaration"@);
    reveal_strlit("lexical_declaration");
    reveal_strlit("variable_declaration");
    reveal_strlit("function_declaration");
    reveal_strlit("generator_function_declaration");
    reveal_strlit("class_declaration");
    reveal_strlit("interface_declaration");
    reveal_strlit("type_alias_declaration");
    reveal_strlit("enum_declaration");
    assert("lexical_declaration"@[0] == 'l' && "variable_declaration"@[0] == 'v');
    assert("function_declaration"@[0] == 'f' && "generator_function_declaration"@[0] == 'g');
    assert("class_declaration"@[0] == 'c' && "interface_declaration"@[0] == 'i');
    assert("type_alias_declaration"@[0] == 't' && "enum_declaration"@[0] == 'e');
    if declares_one(t[decl].kind) {
        if field_child(t, decl, "name"@) == Some(name) {
            assert(names[0] == text_of(t, src, name));
            assert(names.contains(text_of(t, src, name)));
            lemma_export(now, all, text_of(t, src, name));
        }
    } else if t[decl].kind == "lexical_declaration"@ || t[decl].kind == "variable_declaration"@ {
        if children(t, decl).contains(one) && t[one].kind == "variable_declarator"@ && field_child(t, one, "name"@)
            == Some(name) {
            lemma_kind_children(t, decl, "variable_declarator"@, one);
            let kids = kind_children(t, decl, "variable_declarator"@);
            let j = choose|j: int| 0 <= j < kids.len() && kids[j] == one;
            lemma_in_filter_map(kids, declarator_name(t, src), j);
            lemma_export(now, all, declarator_name(t, src)(one)->0);
        }
    } else {
        assert(names[0] == "*"@);
        assert(names.contains("*"@));
        lemma_export(now, all, "*"@);
    }
}

/// `export { x as y }` exports `y` as one of the script's own names; without an
/// alias, `x`.
pub proof fn exported_lists_are_own(t: Seq<NodeView>, src: Text, node: int, clause: int, one: int)
    requires
        is_preorder(t),
        0 <= node < t.len(),
        t[node].kind == "export_statement"@,
        is_from_nowhere(t, src, node),
        kind_child(t, node, "default"@) is None,
        field_child(t, node, "declaration"@) is None,
        kind_child(t, node, "export_clause"@) == Some(clause),
    ensures
        script_of(t, src).has_local_exports,
        children(t, clause).contains(one) && t[one].kind == "export_specifier"@ ==> match (
            field_child(t, one, "alias"@),
            field_child(t, one, "name"@),
        ) {
            (Some(a), _) => script_of(t, src).exports.contains(text_of(t, src, a)),
            (None, Some(n)) => script_of(t, src).exports.contains(text_of(t, src, n)),
            _ => true,
        },
{
    lemma_kinds();
    let acc = lemma_stated(t, src, node);
    let now = after_node(t, src, node, acc);
    let all = script_of(t, src);
    lemma_marks(now, all);
    let kids = kind_children(t, clause, "export_specifier"@);
    lemma_more(acc.exports, kids.filter_map(local_name(t, src)));
    if children(t, clause).contains(one) && t[one].kind == "export_specifier"@ && local_name(t, src)(one) is Some {
        lemma_kind_children(t, clause, "export_specifier"@, one);
        let j = choose|j: int| 0 <= j < kids.len() && kids[j] == one;
        lemma_in_filter_map(kids, local_name(t, src), j);
        lemma_export(now, all, local_name(t, src)(one)->0);
    }
}

/// `module.exports = ..` exports names that are not known, and `exports.name = ..`
/// the name, as the script's own.
pub proof fn assigned_exports_are_own(t: Seq<NodeView>, src: Text, node: int, left: int, obj: int, prop: int)
    requires
        is_preorder(t),
        0 <= node < t.len(),
        t[node].kind == "assignment_expression"@,
        field_child(t, node, "left"@) == Some(left),
        t[left].kind == "member_expression"@,
        field_child(t, left, "object"@) == Some(obj),
        field_child(t, left, "property"@) == Some(prop),
    ensures
        text_of(t, src, obj) == "module"@ && text_of(t, src, prop) == "exports"@ ==> script_of(
            t,
            src,
        ).exports.contains("*"@) && script_of(t, src).has_local_exports,
        text_of(t, src, obj) == "exports"@ ==> script_of(t, src).exports.contains(text_of(t, src, prop))
            && script_of(t, src).has_local_exports,
{
    lemma_kinds();
    reveal_strlit("module");
    reveal_strlit("exports");
    assert("module"@.len() != "exports"@.len());
    let acc = lemma_stated(t, src, node);
    let now = after_node(t, src, node, acc);
    let all = script_of(t, src);
    lemma_marks(now, all);
    if let Some(name) = assigned_export(t, src, node) {
        lemma_one_more(acc.exports, name);
        lemma_export(now, all, name);
    }
}

/// Whether a statement re-exports: it is an export statement with a source.
pub open spec fn reexports(t: Seq<NodeView>, src: Text, node: int) -> bool {
    t[node].kind == "export_statement"@ && exists|spec: Text| is_from(t, src, node, spec)
}

/// Whether a statement exports something of the script's own: an export statement
/// without a source that has a default, a declaration or a list, or an assignment
/// to `module.exports` or to a member of `exports`.
pub open spec fn exports_own(t: Seq<NodeView>, src: Text, node: int) -> bool {
    ||| t[node].kind == "export_statement"@ && is_from_nowhere(t, src, node) && (kind_child(t, node, "default"@) is Some
        || field_child(t, node, "declaration"@) is Some || kind_child(t, node, "export_clause"@) is Some)
    ||| t[node].kind == "assignment_expression"@ && match field_child(t, node, "left"@) {
        Some(left) => t[left].kind == "member_expression"@ && match (
            field_child(t, left, "object"@),
            field_child(t, left, "property"@),
        ) {
            (Some(obj), Some(prop)) => text_of(t, src, obj) == "exports"@ || (text_of(t, src, obj) == "module"@
                && text_of(t, src, prop) == "exports"@),
            _ => false,
        },
        None => false,
    }
}

/// A script re-exports exactly where one of its statements does, and has exports
/// of its own exactly where one of its statements makes one.
pub proof fn scripts_export_by_statements(t: Seq<NodeView>, src: Text)
    requires
        is_preorder(t),
    ensures
        script_of(t, src).has_reexports <==> exists|n: int| 0 <= n < t.len() && #[trigger] reexports(t, src, n),
        script_of(t, src).has_local_exports <==> exists|n: int| 0 <= n < t.len() && #[trigger] exports_own(t, src, n),
{
    every_node_is_visited_once(t);
    lemma_flags(t, src, visits(t));
    if exists|k: int| 0 <= k < visits(t).len() && reexports(t, src, #[trigger] visits(t)[k]) {
        let k = choose|k: int| 0 <= k < visits(t).len() && reexports(t, src, #[trigger] visits(t)[k]);
        assert(visits(t).contains(visits(t)[k]));
    }
    if exists|n: int| 0 <= n < t.len() && #[trigger] reexports(t, src, n) {
        let n = choose|n: int| 0 <= n < t.len() && #[trigger] reexports(t, src, n);
        assert(visits(t).contains(n));
        let k = choose|k: int| 0 <= k < visits(t).len() && visits(t)[k] == n;
        assert(reexports(t, src, visits(t)[k]));
    }
    if exists|k: int| 0 <= k < visits(t).len() && exports_own(t, src, #[trigger] visits(t)[k]) {
        let k = choose|k: int| 0 <= k < visits(t).len() && exports_own(t, src, #[trigger] visits(t)[k]);
        assert(visits(t).contains(visits(t)[k]));
    }
    if exists|n: int| 0 <= n < t.len() && #[trigger] exports_own(t, src, n) {
        let n = choose|n: int| 0 <= n < t.len() && #[trigger] exports_own(t, src, n);
        assert(visits(t).contains(n));
        let k = choose|k: int| 0 <= k < visits(t).len() && visits(t)[k] == n;
        assert(exports_own(t, src, visits(t)[k]));
    }
}

proof fn lemma_flags(t: Seq<NodeView>, src: Text, order: Seq<int>)
    ensures
        after_nodes(t, src, order).has_reexports <==> exists|k: int|
            0 <= k < order.len() && reexports(t, src, #[trigger] order[k]),
        after_nodes(t, src, order).has_local_exports <==> exists|k: int|
            0 <= k < order.len() && exports_own(t, src, #[trigger] order[k]),
    decreases order.len(),
{
    lemma_kinds();
    reveal_strlit("module");
    reveal_strlit("exports");
    if order.len() > 0 {
        let front = order.drop_last();
        lemma_flags(t, src, front);
        let node = order.last();
        assert(order[order.len() - 1] == node);
        assert forall|k: int| 0 <= k < front.len() implies #[trigger] order[k] == front[k] by {}
        if t[node].kind == "export_statement"@ {
            match export_source(t, src, node) {
                Some(spec) => {
                    assert(is_from(t, src, node, spec));
                    assert(reexports(t, src, node));
                },
                None => {
                    assert(!reexports(t, src, node));
                },
            }
        }
        let acc = after_nodes(t, src, front);
        let now = after_nodes(t, src, order);
        assert(now.has_reexports <==> acc.has_reexports || reexports(t, src, node));
        assert(now.has_local_exports <==> acc.has_local_exports || exports_own(t, src, node));
        if exists|k: int| 0 <= k < front.len() && reexports(t, src, #[trigger] front[k]) {
            let k = choose|k: int| 0 <= k < front.len() && reexports(t, src, #[trigger] front[k]);
            assert(reexports(t, src, order[k]));
        }
        if exists|k: int| 0 <= k < order.len() && reexports(t, src, #[trigger] order[k]) {
            let k = choose|k: int| 0 <= k < order.len() && reexports(t, src, #[trigger] order[k]);
            if k < front.len() {
                assert(reexports(t, src, front[k]));
            }
        }
        if exists|k: int| 0 <= k < front.len() && exports_own(t, src, #[trigger] front[k]) {
            let k = choose|k: int| 0 <= k < front.len() && exports_own(t, src, #[trigger] front[k]);
            assert(exports_own(t, src, order[k]));
        }
        if exists|k: int| 0 <= k < order.len() && exports_own(t, src, #[trigger] order[k]) {
            let k = choose|k: int| 0 <= k < order.len() && exports_own(t, src, #[trigger] order[k]);
            if k < front.len() {
                assert(exports_own(t, src, front[k]));
            }
        }
    }
}

/// A script depends on where the specifier of each edge leads, for the names that
/// the edge needs; a re-exported name comes from where its specifier leads, as what
/// it is there; and a wildcard re-export is open to where its specifier leads.
pub proof fn scripts_depend_on_their_specifiers(
    script: ScriptView,
    scope: Scope,
    disk: Map<Text, Option<Text>>,
    i: int,
)
    ensures
        ({
            let facts = linked(script, scope, disk);
            &&& facts.dependencies.len() == script.edges.len()
            &&& 0 <= i < script.edges.len() ==> facts.dependencies[i].target == specifier_target(
                scope,
                disk,
                script.edges[i].0,
            ) && facts.dependencies[i].want == script.edges[i].1
            &&& facts.name_sources.len() == script.name_sources.len()
            &&& 0 <= i < script.name_sources.len() ==> facts.name_sources[i] == (
                script.name_sources[i].0,
                (specifier_target(scope, disk, script.name_sources[i].1), script.name_sources[i].2),
            )
            &&& facts.wildcard_fallbacks.len() == script.wildcards.len()
            &&& 0 <= i < script.wildcards.len() ==> facts.wildcard_fallbacks[i] == specifier_target(
                scope,
                disk,
                script.wildcards[i],
            )
            &&& facts.exports == script.exports
            &&& facts.has_local_exports == script.has_local_exports
            &&& facts.has_reexports == script.has_reexports
        }),
{
}

} // verus!
