use depgraph::syntax::{parse, Grammar, SyntaxTree};
use depgraph::tsutil::{
    child_by_field_name, children_by_field_name, children_of_kind, first_child_of_kind, first_named_child_of_kinds,
    has_child_kind, is_kind, kind_of, node_text, string_literal_content,
};

const SCRIPT: &str = r#"
import def, { a as b, c } from './mod';
import * as ns from "pkg";
import './side';
export { x, y as z } from './x';
export * from './all';
export * as all from './all';
export default function named() { return require('./dyn'); }
export const p = 1, { q } = obj;
export class K {}
export { p as r };
module.exports = { a: 1 };
exports.name = await import("./späť");
const t = `a ${b} c`;
function* g() { yield 1 }
"#;

const TYPED: &str = r#"
import type { T } from './t';
export interface I { a: string }
export type A = I | null;
export enum E { X }
export abstract class B<T> { constructor(private x: T) { super() } }
declare module 'm' { export const v: number }
export = B;
"#;

const MARKUP: &str = "export const V = (p: { a: string }) => <div className=\"x\">{p.a}</div>;\n";

const PYTHON: &str = r#"
import os, a.b as c
from . import x
from ..pkg.mod import (y as z, w)
from m import *
__all__ = ["one", 'two']
VALUE = 1
_hidden = 2
def f(): 
    import lazy
class C: pass
try:
    import opt
except ImportError:
    pass
"#;

const JAVA: &str = r#"
package com.acme.app;
import java.util.*;
import static com.acme.Util.help;
import static com.acme.Util.*;
import com.acme.Other;
public class App { void f() { int x = 1; } }
interface I {}
enum E { A }
record R(int a) {}
@interface Ann {}
"#;

fn language(grammar: Grammar) -> tree_sitter::Language {
    match grammar {
        Grammar::Java => tree_sitter_java::language(),
        Grammar::Python => tree_sitter_python::language(),
        Grammar::JavaScript => tree_sitter_javascript::language(),
        Grammar::TypeScript => tree_sitter_typescript::language_typescript(),
        Grammar::Tsx => tree_sitter_typescript::language_tsx(),
    }
}

fn preorder<'a>(node: tree_sitter::Node<'a>, out: &mut Vec<tree_sitter::Node<'a>>) {
    out.push(node);
    for i in 0..node.child_count() {
        preorder(node.child(i).unwrap(), out);
    }
}

fn samples() -> Vec<(Grammar, &'static str)> {
    vec![
        (Grammar::JavaScript, SCRIPT),
        (Grammar::TypeScript, SCRIPT),
        (Grammar::Tsx, SCRIPT),
        (Grammar::TypeScript, TYPED),
        (Grammar::Tsx, MARKUP),
        (Grammar::Python, PYTHON),
        (Grammar::Java, JAVA),
        (Grammar::JavaScript, "import {"),
        (Grammar::Python, ""),
    ]
}

fn number(all: &[tree_sitter::Node], node: tree_sitter::Node) -> usize {
    all.iter().position(|n| n.id() == node.id()).unwrap()
}

fn our_tree(grammar: Grammar, src: &str) -> SyntaxTree {
    parse(grammar, src).unwrap().unwrap()
}

#[test]
fn nodes_are_those_of_tree_sitter() {
    for (grammar, src) in samples() {
        let mut parser = tree_sitter::Parser::new();
        parser.set_language(&language(grammar)).unwrap();
        let theirs = parser.parse(src, None).unwrap();
        let mut all = Vec::new();
        preorder(theirs.root_node(), &mut all);
        let ours = our_tree(grammar, src);
        assert_eq!(ours.len(), all.len());
        for (i, node) in all.iter().enumerate() {
            assert_eq!(kind_of(&ours, i), node.kind());
            assert!(is_kind(&ours, i, node.kind()));
            assert_eq!(ours.nodes[i].named, node.is_named());
            assert_eq!(node_text(&ours, i, src), node.utf8_text(src.as_bytes()).unwrap());
            let want: Vec<usize> =
                (0..node.child_count()).map(|k| number(&all, node.child(k).unwrap())).collect();
            assert_eq!(ours.children(i), want);
        }
    }
}

#[test]
fn fields_are_those_of_tree_sitter() {
    let fields = [
        "function", "arguments", "left", "right", "object", "property", "name", "source", "declaration", "alias",
        "module_name", "scope", "body", "value", "parameters",
    ];
    for (grammar, src) in samples() {
        let mut parser = tree_sitter::Parser::new();
        parser.set_language(&language(grammar)).unwrap();
        let theirs = parser.parse(src, None).unwrap();
        let mut all = Vec::new();
        preorder(theirs.root_node(), &mut all);
        let ours = our_tree(grammar, src);
        for (i, node) in all.iter().enumerate() {
            for field in fields {
                let want = node.child_by_field_name(field).map(|c| number(&all, c));
                assert_eq!(child_by_field_name(&ours, i, field), want, "{} {field}", node.kind());
                let mut cursor = node.walk();
                let want: Vec<usize> =
                    node.children_by_field_name(field, &mut cursor).map(|c| number(&all, c)).collect();
                assert_eq!(children_by_field_name(&ours, i, field), want, "{} {field}", node.kind());
            }
        }
    }
}

#[test]
fn nodes_are_visited_as_from_a_stack() {
    for (grammar, src) in samples() {
        let ours = our_tree(grammar, src);
        let mut want = Vec::new();
        let mut stack = vec![0usize];
        while let Some(node) = stack.pop() {
            want.push(node);
            stack.extend(ours.children(node));
        }
        assert_eq!(ours.visits(), want);
        let mut once = want.clone();
        once.sort();
        assert_eq!(once, (0..ours.len()).collect::<Vec<usize>>());
        assert_eq!(ours.top_level(), ours.children(0));
    }
}

#[test]
fn children_are_found_by_kind() {
    let src = "export { x, y as z } from './x';";
    let tree = our_tree(Grammar::JavaScript, src);
    let statement = tree.top_level()[0];
    assert_eq!(kind_of(&tree, statement), "export_statement");
    assert!(has_child_kind(&tree, statement, "export_clause"));
    assert!(!has_child_kind(&tree, statement, "default"));
    let clause = first_child_of_kind(&tree, statement, "export_clause").unwrap();
    let specs = children_of_kind(&tree, clause, "export_specifier");
    assert_eq!(specs.iter().map(|s| node_text(&tree, *s, src)).collect::<Vec<&str>>(), ["x", "y as z"]);
    assert_eq!(first_named_child_of_kinds(&tree, clause, &["string", "export_specifier"]), Some(specs[0]));
    assert_eq!(first_named_child_of_kinds(&tree, clause, &["{"]), None);
    let source = child_by_field_name(&tree, statement, "source").unwrap();
    assert_eq!(string_literal_content(&tree, source, src), Some("./x".to_string()));
    assert_eq!(string_literal_content(&tree, clause, src), None);
}

#[test]
fn an_empty_string_has_no_content() {
    let src = "import '';";
    let tree = our_tree(Grammar::JavaScript, src);
    let source = child_by_field_name(&tree, tree.top_level()[0], "source").unwrap();
    assert_eq!(string_literal_content(&tree, source, src), None);
}

#[test]
fn escapes_are_part_of_a_string() {
    for (src, want) in [
        ("import 'a\\u0062c';", "a\\u0062c"),
        ("import 'abc';", "abc"),
        ("import '\\u0062c';", "\\u0062c"),
        ("import 'a\\u0062';", "a\\u0062"),
        ("import '\\n';", "\\n"),
    ] {
        for grammar in [Grammar::JavaScript, Grammar::TypeScript, Grammar::Tsx] {
            let tree = our_tree(grammar, src);
            let source = child_by_field_name(&tree, tree.top_level()[0], "source").unwrap();
            assert_eq!(string_literal_content(&tree, source, src), Some(want.to_string()));
        }
    }
}

#[test]
fn text_outside_of_the_source_is_empty() {
    let src = "const ä = 1;";
    let tree = our_tree(Grammar::JavaScript, src);
    assert_eq!(node_text(&tree, 0, "x"), "");
    assert_eq!(node_text(&tree, 0, src), src);
}
