//! Which statement of a script each of the things that it states comes from.
use vstd::prelude::*;
use vstd::seq_lib::seq_to_set_is_finite;

use crate::facts::{Want, Wanted};
use crate::lang::js_ts::{
    after_local_export, after_node, after_nodes, after_reexport, assigned_export, call_source, clause_pairs,
    declared_names, declarator_name, export_source, import_edge, local_name, reexported, script_of, ScriptView,
};
use crate::lang::statements::{
    declares_one, is_from, is_from_nowhere, lemma_declares_one, lemma_kind_children, lemma_kinds,
};
use crate::lists::{lemma_from_filter_map, lemma_more, lemma_one_more};
use crate::order::lemma_in_order_lists;
use crate::syntax::{children, every_node_is_visited_once, is_preorder, visits, NodeView};
use crate::text::Text;
use crate::tsutil::{field_child, first_of, kind_child, kind_children, literal, named_of_kinds, text_of};

verus! {

/// Whether a node is a call of `require` or of `import` with this specifier.
pub open spec fn calls_for(t: Seq<NodeView>, src: Text, node: int, spec: Text) -> bool {
    &&& t[node].kind == "call_expression"@
    &&& match (field_child(t, node, "function"@), field_child(t, node, "arguments"@)) {
        (Some(f), Some(args)) => {
            &&& t[f].kind == "import"@ || (t[f].kind == "identifier"@ && text_of(t, src, f) == "require"@)
            &&& match kind_child(t, args, "string"@) {
                Some(s) => literal(t, src, s) == Some(spec),
                None => false,
            }
        },
        _ => false,
    }
}

/// Whether a node refers to a specifier: it is an import or an export from it, or
/// a call for it.
pub open spec fn refers_to(t: Seq<NodeView>, src: Text, node: int, spec: Text) -> bool {
    ||| t[node].kind == "import_statement"@ && is_from(t, src, node, spec)
    ||| t[node].kind == "export_statement"@ && is_from(t, src, node, spec)
    ||| calls_for(t, src, node, spec)
}

/// Whether an export specifier gives a name of the source to be seen under
/// another.
pub open spec fn gives(t: Seq<NodeView>, src: Text, one: int, there: Text, here: Text) -> bool {
    &&& t[one].kind == "export_specifier"@
    &&& match field_child(t, one, "name"@) {
        Some(n) => text_of(t, src, n) == there && here == match field_child(t, one, "alias"@) {
            Some(a) => text_of(t, src, a),
            None => there,
        },
        None => false,
    }
}

/// Whether a node is an export statement that takes a name of the source for one
/// to be seen here, or all of the source.
pub open spec fn takes(t: Seq<NodeView>, src: Text, node: int, s: (Text, Text, Want)) -> bool {
    &&& t[node].kind == "export_statement"@
    &&& is_from(t, src, node, s.1)
    &&& match (s.2, kind_child(t, node, "export_clause"@), kind_child(t, node, "namespace_export"@)) {
        (Want::Name(there), Some(clause), _) => exists|one: int| #[trigger]
            children(t, clause).contains(one) && gives(t, src, one, there, s.0),
        (Want::All, None, Some(ns)) => match first_of(children(t, ns), named_of_kinds(t, seq!["identifier"@])) {
            Some(ident) => s.0 == text_of(t, src, ident),
            None => false,
        },
        _ => false,
    }
}

/// Whether a node is a statement `export * from` a specifier.
pub open spec fn opens(t: Seq<NodeView>, src: Text, node: int, spec: Text) -> bool {
    &&& t[node].kind == "export_statement"@
    &&& is_from(t, src, node, spec)
    &&& kind_child(t, node, "export_clause"@) is None
    &&& kind_child(t, node, "namespace_export"@) is None
}

/// Whether a declaration declares a name.
pub open spec fn declares(t: Seq<NodeView>, src: Text, decl: int, name: Text) -> bool {
    if declares_one(t[decl].kind) {
        match field_child(t, decl, "name"@) {
            Some(n) => text_of(t, src, n) == name,
            None => false,
        }
    } else if t[decl].kind == "lexical_declaration"@ || t[decl].kind == "variable_declaration"@ {
        exists|one: int| #[trigger]
            children(t, decl).contains(one) && t[one].kind == "variable_declarator"@ && match field_child(
                t,
                one,
                "name"@,
            ) {
                Some(n) => name == if t[n].kind == "identifier"@ {
                    text_of(t, src, n)
                } else {
                    "*"@
                },
                None => false,
            }
    } else {
        name == "*"@
    }
}

/// Whether an export specifier without a source exports a name.
pub open spec fn lists(t: Seq<NodeView>, src: Text, one: int, name: Text) -> bool {
    &&& t[one].kind == "export_specifier"@
    &&& match (field_child(t, one, "alias"@), field_child(t, one, "name"@)) {
        (Some(a), _) => text_of(t, src, a) == name,
        (None, Some(n)) => text_of(t, src, n) == name,
        _ => false,
    }
}

/// Whether an export statement without a source exports a name of the script's
/// own.
pub open spec fn states_own(t: Seq<NodeView>, src: Text, node: int, name: Text) -> bool {
    if kind_child(t, node, "default"@) is Some {
        name == "default"@
    } else {
        match (field_child(t, node, "declaration"@), kind_child(t, node, "export_clause"@)) {
            (Some(decl), _) => declares(t, src, decl, name),
            (None, Some(clause)) => exists|one: int| #[trigger]
                children(t, clause).contains(one) && lists(t, src, one, name),
            _ => false,
        }
    }
}

/// Whether an assignment exports a name.
pub open spec fn assigns(t: Seq<NodeView>, src: Text, node: int, name: Text) -> bool {
    match field_child(t, node, "left"@) {
        Some(left) => t[left].kind == "member_expression"@ && match (
            field_child(t, left, "object"@),
            field_child(t, left, "property"@),
        ) {
            (Some(obj), Some(prop)) => {
                ||| text_of(t, src, obj) == "module"@ && text_of(t, src, prop) == "exports"@ && name == "*"@
                ||| text_of(t, src, obj) == "exports"@ && name == text_of(t, src, prop)
            },
            _ => false,
        },
        None => false,
    }
}

/// Whether a node exports a name.
pub open spec fn exports_name(t: Seq<NodeView>, src: Text, node: int, name: Text) -> bool {
    ||| exists|spec: Text, want: Want| #[trigger] takes(t, src, node, (name, spec, want))
    ||| name == "*"@ && exists|spec: Text| #[trigger] opens(t, src, node, spec)
    ||| t[node].kind == "export_statement"@ && is_from_nowhere(t, src, node) && states_own(t, src, node, name)
    ||| t[node].kind == "assignment_expression"@ && assigns(t, src, node, name)
}

/// Whether all that a script states comes from some of its nodes.
#[verifier::opaque]
spec fn is_founded(t: Seq<NodeView>, src: Text, order: Seq<int>, s: ScriptView) -> bool {
    &&& forall|e: (Text, Wanted)| #[trigger]
        s.edges.contains(e) ==> exists|n: int| #[trigger] order.contains(n) && refers_to(t, src, n, e.0)
    &&& forall|x: (Text, Text, Want)| #[trigger]
        s.name_sources.contains(x) ==> exists|n: int| #[trigger] order.contains(n) && takes(t, src, n, x)
    &&& forall|x: Text| #[trigger]
        s.wildcards.contains(x) ==> exists|n: int| #[trigger] order.contains(n) && opens(t, src, n, x)
    &&& forall|x: Text| #[trigger]
        s.exports.contains(x) ==> exists|n: int| #[trigger] order.contains(n) && exports_name(t, src, n, x)
}

/// Whether all that `now` states beyond `acc` comes from a node.
#[verifier::opaque]
spec fn adds(t: Seq<NodeView>, src: Text, node: int, acc: ScriptView, now: ScriptView) -> bool {
    &&& forall|e: (Text, Wanted)| #[trigger]
        now.edges.contains(e) ==> acc.edges.contains(e) || refers_to(t, src, node, e.0)
    &&& forall|x: (Text, Text, Want)| #[trigger]
        now.name_sources.contains(x) ==> acc.name_sources.contains(x) || takes(t, src, node, x)
    &&& forall|x: Text| #[trigger]
        now.wildcards.contains(x) ==> acc.wildcards.contains(x) || opens(t, src, node, x)
    &&& forall|x: Text| #[trigger]
        now.exports.contains(x) ==> acc.exports.contains(x) || exports_name(t, src, node, x)
}

proof fn lemma_pair(t: Seq<NodeView>, src: Text, clause: int, k: int)
    requires
        0 <= k < clause_pairs(t, src, clause).len(),
    ensures
        exists|one: int| #[trigger]
            children(t, clause).contains(one) && gives(
                t,
                src,
                one,
                clause_pairs(t, src, clause)[k].0,
                clause_pairs(t, src, clause)[k].1,
            ),
{
    let kids = kind_children(t, clause, "export_specifier"@);
    let f = reexported(t, src);
    let p = clause_pairs(t, src, clause)[k];
    assert(clause_pairs(t, src, clause).contains(p));
    lemma_from_filter_map(kids, f, p);
    let j = choose|j: int| 0 <= j < kids.len() && f(#[trigger] kids[j]) == Some(p);
    assert(kids.contains(kids[j]));
    lemma_kind_children(t, clause, "export_specifier"@, kids[j]);
    assert(children(t, clause).contains(kids[j]) && gives(t, src, kids[j], p.0, p.1));
}

proof fn lemma_reexport_adds(t: Seq<NodeView>, src: Text, node: int, spec: Text, acc: ScriptView)
    requires
        t[node].kind == "export_statement"@,
        is_from(t, src, node, spec),
    ensures
        adds(t, src, node, acc, after_reexport(t, src, node, spec, acc)),
{
    reveal(adds);
    let now = after_reexport(t, src, node, spec, acc);
    assert(refers_to(t, src, node, spec));
    lemma_one_more(acc.edges, now.edges.last());
    assert(now.edges =~= acc.edges.push(now.edges.last()));
    match kind_child(t, node, "export_clause"@) {
        Some(clause) => {
            let pairs = clause_pairs(t, src, clause);
            let visible = pairs.map_values(|p: (Text, Text)| p.1);
            let sources = pairs.map_values(|p: (Text, Text)| (p.1, spec, Want::Name(p.0)));
            lemma_more(acc.exports, visible);
            lemma_more(acc.name_sources, sources);
            assert forall|k: int| 0 <= k < pairs.len() implies takes(
                t,
                src,
                node,
                (#[trigger] pairs[k].1, spec, Want::Name(pairs[k].0)),
            ) by {
                lemma_pair(t, src, clause, k);
            }
            assert forall|x: (Text, Text, Want)| #[trigger] sources.contains(x) implies takes(t, src, node, x) by {
                let k = choose|k: int| 0 <= k < sources.len() && sources[k] == x;
                assert(x == (pairs[k].1, spec, Want::Name(pairs[k].0)));
            }
            assert forall|x: Text| #[trigger] visible.contains(x) implies exports_name(t, src, node, x) by {
                let k = choose|k: int| 0 <= k < visible.len() && visible[k] == x;
                assert(takes(t, src, node, (pairs[k].1, spec, Want::Name(pairs[k].0))));
            }
        },
        None => match kind_child(t, node, "namespace_export"@) {
            Some(ns) => match first_of(children(t, ns), named_of_kinds(t, seq!["identifier"@])) {
                Some(ident) => {
                    let name = text_of(t, src, ident);
                    lemma_one_more(acc.exports, name);
                    lemma_one_more(acc.name_sources, (name, spec, Want::All));
                    assert(takes(t, src, node, (name, spec, Want::All)));
                },
                None => {},
            },
            None => {
                lemma_one_more(acc.exports, "*"@);
                lemma_one_more(acc.wildcards, spec);
                assert(opens(t, src, node, spec));
            },
        },
    }
}

proof fn lemma_declared(t: Seq<NodeView>, src: Text, decl: int, name: Text)
    requires
        declared_names(t, src, decl).contains(name),
    ensures
        declares(t, src, decl, name),
{
    let names = declared_names(t, src, decl);
    let k = choose|k: int| 0 <= k < names.len() && names[k] == name;
    lemma_declares_one(t[decl].kind);
    if !declares_one(t[decl].kind) && (t[decl].kind == "lexical_declaration"@ || t[decl].kind
        == "variable_declaration"@) {
        let kids = kind_children(t, decl, "variable_declarator"@);
        let f = declarator_name(t, src);
        lemma_from_filter_map(kids, f, name);
        let j = choose|j: int| 0 <= j < kids.len() && f(#[trigger] kids[j]) == Some(name);
        assert(kids.contains(kids[j]));
        lemma_kind_children(t, decl, "variable_declarator"@, kids[j]);
        assert(children(t, decl).contains(kids[j]));
    }
}

proof fn lemma_local_export_adds(t: Seq<NodeView>, src: Text, node: int, acc: ScriptView)
    requires
        t[node].kind == "export_statement"@,
        is_from_nowhere(t, src, node),
    ensures
        adds(t, src, node, acc, after_local_export(t, src, node, acc)),
{
    reveal(adds);
    let now = after_local_export(t, src, node, acc);
    if kind_child(t, node, "default"@) is Some {
        lemma_one_more(acc.exports, "default"@);
    } else {
        match field_child(t, node, "declaration"@) {
            Some(decl) => {
                let names = declared_names(t, src, decl);
                lemma_more(acc.exports, names);
                assert forall|x: Text| #[trigger] names.contains(x) implies exports_name(t, src, node, x) by {
                    lemma_declared(t, src, decl, x);
                }
            },
            None => match kind_child(t, node, "export_clause"@) {
                Some(clause) => {
                    let kids = kind_children(t, clause, "export_specifier"@);
                    let f = local_name(t, src);
                    let names = kids.filter_map(f);
                    lemma_more(acc.exports, names);
                    assert forall|x: Text| #[trigger] names.contains(x) implies exports_name(t, src, node, x) by {
                        lemma_from_filter_map(kids, f, x);
                        let j = choose|j: int| 0 <= j < kids.len() && f(#[trigger] kids[j]) == Some(x);
                        assert(kids.contains(kids[j]));
                        lemma_kind_children(t, clause, "export_specifier"@, kids[j]);
                        assert(children(t, clause).contains(kids[j]) && lists(t, src, kids[j], x));
                    }
                },
                None => {},
            },
        }
    }
}

proof fn lemma_node_adds(t: Seq<NodeView>, src: Text, node: int, acc: ScriptView)
    ensures
        adds(t, src, node, acc, after_node(t, src, node, acc)),
{
    lemma_kinds();
    if t[node].kind == "export_statement"@ {
        match export_source(t, src, node) {
            Some(spec) => {
                lemma_reexport_adds(t, src, node, spec, acc);
            },
            None => {
                lemma_local_export_adds(t, src, node, acc);
            },
        }
    } else {
        reveal(adds);
        if t[node].kind == "import_statement"@ {
            if let Some(e) = import_edge(t, src, node) {
                lemma_one_more(acc.edges, e);
            }
        } else if t[node].kind == "call_expression"@ {
            if let Some(spec) = call_source(t, src, node) {
                lemma_one_more(acc.edges, (spec, Wanted::All));
            }
        } else if t[node].kind == "assignment_expression"@ {
            if let Some(name) = assigned_export(t, src, node) {
                lemma_one_more(acc.exports, name);
            }
        }
    }
}

proof fn lemma_founded(t: Seq<NodeView>, src: Text, order: Seq<int>)
    ensures
        is_founded(t, src, order, after_nodes(t, src, order)),
    decreases order.len(),
{
    reveal(is_founded);
    if order.len() > 0 {
        let front = order.drop_last();
        let node = order.last();
        let acc = after_nodes(t, src, front);
        let now = after_nodes(t, src, order);
        lemma_founded(t, src, front);
        lemma_node_adds(t, src, node, acc);
        reveal(adds);
        lemma_one_more(front, node);
        assert(order =~= front.push(node));
        assert forall|e: (Text, Wanted)| #[trigger] now.edges.contains(e) implies exists|n: int| #[trigger]
            order.contains(n) && refers_to(t, src, n, e.0) by {
            if acc.edges.contains(e) {
                let n = choose|n: int| #[trigger] front.contains(n) && refers_to(t, src, n, e.0);
                assert(order.contains(n));
            } else {
                assert(order.contains(node));
            }
        }
        assert forall|x: (Text, Text, Want)| #[trigger] now.name_sources.contains(x) implies exists|n: int| #[trigger]
            order.contains(n) && takes(t, src, n, x) by {
            if acc.name_sources.contains(x) {
                let n = choose|n: int| #[trigger] front.contains(n) && takes(t, src, n, x);
                assert(order.contains(n));
            } else {
                assert(order.contains(node));
            }
        }
        assert forall|x: Text| #[trigger] now.wildcards.contains(x) implies exists|n: int| #[trigger]
            order.contains(n) && opens(t, src, n, x) by {
            if acc.wildcards.contains(x) {
                let n = choose|n: int| #[trigger] front.contains(n) && opens(t, src, n, x);
                assert(order.contains(n));
            } else {
                assert(order.contains(node));
            }
        }
        assert forall|x: Text| #[trigger] now.exports.contains(x) implies exists|n: int| #[trigger]
            order.contains(n) && exports_name(t, src, n, x) by {
            if acc.exports.contains(x) {
                let n = choose|n: int| #[trigger] front.contains(n) && exports_name(t, src, n, x);
                assert(order.contains(n));
            } else {
                assert(order.contains(node));
            }
        }
    }
}

/// A script depends on nothing that no statement or call of it refers to.
pub proof fn edges_come_from_statements(t: Seq<NodeView>, src: Text, e: (Text, Wanted)) -> (node: int)
    requires
        is_preorder(t),
        script_of(t, src).edges.contains(e),
    ensures
        0 <= node < t.len(),
        refers_to(t, src, node, e.0),
{
    every_node_is_visited_once(t);
    lemma_founded(t, src, visits(t));
    reveal(is_founded);
    assert(after_nodes(t, src, visits(t)).edges.contains(e));
    choose|n: int| #[trigger] visits(t).contains(n) && refers_to(t, src, n, e.0)
}

/// A script says of no name that it comes from elsewhere unless a statement takes
/// it from there.
pub proof fn sources_come_from_statements(t: Seq<NodeView>, src: Text, s: (Text, Text, Want)) -> (node: int)
    requires
        is_preorder(t),
        script_of(t, src).name_sources.contains(s),
    ensures
        0 <= node < t.len(),
        takes(t, src, node, s),
{
    every_node_is_visited_once(t);
    lemma_founded(t, src, visits(t));
    reveal(is_founded);
    assert(after_nodes(t, src, visits(t)).name_sources.contains(s));
    choose|n: int| #[trigger] visits(t).contains(n) && takes(t, src, n, s)
}

/// Names that are not known come from nowhere but where a statement
/// `export * from` takes them from.
pub proof fn wildcards_come_from_statements(t: Seq<NodeView>, src: Text, spec: Text) -> (node: int)
    requires
        is_preorder(t),
        script_of(t, src).wildcards.contains(spec),
    ensures
        0 <= node < t.len(),
        opens(t, src, node, spec),
{
    every_node_is_visited_once(t);
    lemma_founded(t, src, visits(t));
    reveal(is_founded);
    assert(after_nodes(t, src, visits(t)).wildcards.contains(spec));
    choose|n: int| #[trigger] visits(t).contains(n) && opens(t, src, n, spec)
}

/// A script exports no name that no statement of it exports.
pub proof fn exports_come_from_statements(t: Seq<NodeView>, src: Text, name: Text) -> (node: int)
    requires
        is_preorder(t),
        script_of(t, src).exports.contains(name),
    ensures
        0 <= node < t.len(),
        exports_name(t, src, node, name),
{
    every_node_is_visited_once(t);
    lemma_founded(t, src, visits(t));
    reveal(is_founded);
    let all = after_nodes(t, src, visits(t));
    seq_to_set_is_finite(all.exports);
    lemma_in_order_lists(all.exports.to_set());
    assert(script_of(t, src).exports.to_set().contains(name));
    assert(all.exports.to_set().contains(name));
    assert(all.exports.contains(name));
    choose|n: int| #[trigger] visits(t).contains(n) && exports_name(t, src, n, name)
}

} // verus!
