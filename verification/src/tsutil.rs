//! Looking into syntax trees, and finding the file behind a JavaScript or
//! TypeScript path.
use vstd::prelude::*;
use vstd::utf8::*;
use vstd::string::*;

use crate::disk::{first_file, Disk};
use crate::path::{is_stretch, join, joined, lemma_named, names, parts_of};
use crate::syntax::{children, lemma_children, numbers, NodeView, SyntaxTree};
use crate::text::{holds, join2, one_of, optional_text, same, strs, texts, Text};

verus! {

/// Whether a part of the path is `node_modules`. What lies under one is third
/// party and never an internal dependency.
pub open spec fn under_node_modules(path: Text) -> bool {
    names(path).contains("node_modules"@)
}

/// Whether a part of the path is `node_modules`.
pub fn is_under_node_modules(path: &str) -> (r: bool)
    ensures
        r == under_node_modules(path@),
{
    let parts = parts_of(path);
    holds(&parts, "node_modules")
}

/// The files that a JavaScript or TypeScript path can stand for: itself, with
/// an extension, or as a directory with an index file. Nothing under
/// `node_modules`.
pub open spec fn js_like_candidates(path: Text) -> Seq<Text> {
    if under_node_modules(path) {
        Seq::empty()
    } else {
        seq![
            path,
            path + ".ts"@,
            path + ".tsx"@,
            path + ".js"@,
            path + ".jsx"@,
            path + ".mjs"@,
            path + ".cjs"@,
            path + ".json"@,
            join(path, "index.ts"@),
            join(path, "index.tsx"@),
            join(path, "index.js"@),
            join(path, "index.jsx"@),
            join(path, "index.mjs"@),
            join(path, "index.cjs"@),
        ]
    }
}

/// Nothing that a path can stand for lies under `node_modules`.
pub proof fn never_into_node_modules(path: Text, i: int)
    requires
        0 <= i < js_like_candidates(path).len(),
    ensures
        !under_node_modules(js_like_candidates(path)[i]),
{
    reveal_strlit(".ts");
    reveal_strlit(".tsx");
    reveal_strlit(".js");
    reveal_strlit(".jsx");
    reveal_strlit(".mjs");
    reveal_strlit(".cjs");
    reveal_strlit(".json");
    reveal_strlit("index.ts");
    reveal_strlit("index.tsx");
    reveal_strlit("index.js");
    reveal_strlit("index.jsx");
    reveal_strlit("index.mjs");
    reveal_strlit("index.cjs");
    if i == 0 {
    } else if i < 8 {
        let ends = seq![".ts"@, ".tsx"@, ".js"@, ".jsx"@, ".mjs"@, ".cjs"@, ".json"@];
        assert(js_like_candidates(path)[i] == path + ends[i - 1]);
        lemma_not_node_modules(path, ends[i - 1], 0);
    } else {
        let files = seq![
            "index.ts"@,
            "index.tsx"@,
            "index.js"@,
            "index.jsx"@,
            "index.mjs"@,
            "index.cjs"@,
        ];
        let file = files[i - 8];
        reveal_strlit("/");
        assert(js_like_candidates(path)[i] == join(path, file));
        let front = if path.len() > 0 && path.last() != '/' {
            path + "/"@
        } else {
            path
        };
        lemma_with_slash(path);
        assert(join(path, file) =~= front + file);
        lemma_not_node_modules(front, file, 5);
    }
}

/// A slash behind a path adds no part to it.
proof fn lemma_with_slash(path: Text)
    ensures
        under_node_modules(path + "/"@) == under_node_modules(path),
{
    reveal_strlit("/");
    reveal_strlit(".");
    reveal_strlit("node_modules");
    let name = "node_modules"@;
    assert(name.len() == 12);
    assert("/"@.len() == 1);
    assert("."@.len() == 1);
    let t = path + "/"@;
    lemma_named(path, name);
    lemma_named(t, name);
    if under_node_modules(path) {
        let (i, j) = choose|i: int, j: int| #[trigger]
            is_stretch(path, i, j) && path.subrange(i, j) == name;
        assert forall|k: int| i <= k < j implies t[k] != '/' by {
            assert(t[k] == path[k]);
        }
        assert(is_stretch(t, i, j));
        assert(t.subrange(i, j) =~= name);
    }
    if under_node_modules(t) {
        let (i, j) = choose|i: int, j: int| #[trigger] is_stretch(t, i, j) && t.subrange(i, j) == name;
        if j == t.len() {
            assert(t[j - 1] != '/');
        }
        assert forall|k: int| i <= k < j implies path[k] != '/' by {
            assert(t[k] == path[k]);
        }
        assert(is_stretch(path, i, j));
        assert(path.subrange(i, j) =~= name);
    }
}

/// A path that is not under `node_modules` is not so either with more
/// characters behind it, none of which is a slash and one of which is a dot.
proof fn lemma_not_node_modules(path: Text, end: Text, dot: int)
    requires
        !under_node_modules(path),
        forall|k: int| 0 <= k < end.len() ==> end[k] != '/',
        0 <= dot < end.len(),
        end[dot] == '.',
    ensures
        !under_node_modules(path + end),
{
    reveal_strlit("/");
    reveal_strlit(".");
    reveal_strlit("node_modules");
    let name = "node_modules"@;
    assert(name.len() == 12);
    assert("/"@.len() == 1);
    assert("."@.len() == 1);
    assert forall|k: int| 0 <= k < 12 implies name[k] != '.' by {}
    let t = path + end;
    lemma_named(path, name);
    lemma_named(t, name);
    if under_node_modules(t) {
        let (i, j) = choose|i: int, j: int| #[trigger] is_stretch(t, i, j) && t.subrange(i, j) == name;
        if j > path.len() {
            assert(j == t.len()) by {
                if j < t.len() {
                    assert(t[j] == end[j - path.len()]);
                }
            }
            assert(i <= path.len()) by {
                if i > path.len() {
                    assert(t[i - 1] == end[i - 1 - path.len()]);
                }
            }
            assert(t[path.len() + dot] == '.');
            assert(t.subrange(i, j)[path.len() + dot - i] == t[path.len() + dot]);
        } else {
            assert forall|k: int| i <= k < j implies path[k] != '/' by {
                assert(t[k] == path[k]);
            }
            if i > 0 {
                assert(t[i - 1] == path[i - 1]);
            }
            if j < path.len() {
                assert(t[j] == path[j]);
            }
            assert(is_stretch(path, i, j));
            assert(path.subrange(i, j) =~= name);
        }
    }
}

/// The files that a JavaScript or TypeScript path can stand for.
pub fn list_js_like_candidates(path: &str) -> (r: Vec<String>)
    ensures
        texts(r@) == js_like_candidates(path@),
{
    let mut out: Vec<String> = Vec::new();
    if is_under_node_modules(path) {
        assert(texts(out@) =~= js_like_candidates(path@));
        return out;
    }
    out.push(path.to_owned());
    out.push(join2(path, ".ts"));
    out.push(join2(path, ".tsx"));
    out.push(join2(path, ".js"));
    out.push(join2(path, ".jsx"));
    out.push(join2(path, ".mjs"));
    out.push(join2(path, ".cjs"));
    out.push(join2(path, ".json"));
    out.push(joined(path, "index.ts"));
    out.push(joined(path, "index.tsx"));
    out.push(joined(path, "index.js"));
    out.push(joined(path, "index.jsx"));
    out.push(joined(path, "index.mjs"));
    out.push(joined(path, "index.cjs"));
    assert(texts(out@) =~= js_like_candidates(path@));
    out
}

/// The file that a JavaScript or TypeScript path stands for: the first of its
/// candidates that exists.
pub fn resolve_js_like_file(candidate: &str, disk: &Disk) -> (r: Option<String>)
    ensures
        optional_text(r) == first_file(disk@, js_like_candidates(candidate@)),
{
    let candidates = list_js_like_candidates(candidate);
    disk.find(&candidates)
}

/// The characters of `src` between two bytes; none where these do not stand
/// between characters.
pub open spec fn text_between(src: Text, start: int, end: int) -> Text {
    let bytes = encode_utf8(src);
    if 0 <= start <= end <= bytes.len() && is_char_boundary(bytes, start) && is_char_boundary(
        bytes,
        end,
    ) {
        decode_utf8(bytes.subrange(start, end))
    } else {
        Seq::empty()
    }
}

/// The text of a node.
pub open spec fn text_of(t: Seq<NodeView>, src: Text, node: int) -> Text {
    text_between(src, t[node].start, t[node].end)
}

/// The characters of `src` between two bytes; none where these do not stand
/// between characters.
fn slice_between<'a>(src: &'a str, start: usize, end: usize) -> (r: &'a str)
    ensures
        r@ == text_between(src@, start as int, end as int),
{
    let ghost bytes = encode_utf8(src@);
    proof {
        encode_utf8_valid_utf8(src@);
    }
    if start <= end && end <= src.as_bytes().len() && src.is_char_boundary(start)
        && src.is_char_boundary(end) {
        let (front, _) = src.split_at(end);
        proof {
            let whole = bytes.subrange(0, end as int);
            encode_utf8_valid_utf8(front@);
            lemma_boundary_of_front(bytes, start as int, end as int);
        }
        let (_, piece) = front.split_at(start);
        proof {
            assert(bytes.subrange(0, end as int).subrange(start as int,
                end as int) =~= bytes.subrange(start as int, end as int));
            encode_utf8_decode_utf8(piece@);
        }
        piece
    } else {
        let (front, _) = src.split_at(0);
        proof {
            encode_utf8_decode_utf8(front@);
            assert(bytes.subrange(0, 0) =~= Seq::<u8>::empty());
        }
        front
    }
}

/// The text of a node.
pub fn node_text<'a>(tree: &SyntaxTree, node: usize, src: &'a str) -> (r: &'a str)
    requires
        node < tree@.len(),
    ensures
        r@ == text_of(tree@, src@, node as int),
{
    slice_between(src, tree.nodes[node].start, tree.nodes[node].end)
}

/// A boundary of a text is one of each longer front of it.
proof fn lemma_boundary_of_front(bytes: Seq<u8>, start: int, end: int)
    requires
        valid_utf8(bytes),
        0 <= start <= end <= bytes.len(),
        is_char_boundary(bytes, start),
        is_char_boundary(bytes, end),
    ensures
        valid_utf8(bytes.subrange(0, end)),
        is_char_boundary(bytes.subrange(0, end), start),
{
    let front = bytes.subrange(0, end);
    valid_utf8_split(bytes, end);
    if start == end {
        is_char_boundary_start_end_of_seq(front);
    } else {
        is_char_boundary_iff_is_leading_byte(bytes, start);
        is_char_boundary_iff_is_leading_byte(front, start);
    }
}

/// The first number of a list that `f` holds for.
pub open spec fn first_of(list: Seq<int>, f: spec_fn(int) -> bool) -> Option<int>
    decreases list.len(),
{
    if list.len() == 0 {
        None
    } else {
        match first_of(list.drop_last(), f) {
            Some(c) => Some(c),
            None => if f(list.last()) {
                Some(list.last())
            } else {
                None
            },
        }
    }
}

/// What is first among the first numbers of a list is first in the list.
proof fn lemma_first_of_front(list: Seq<int>, k: int, f: spec_fn(int) -> bool)
    requires
        0 <= k <= list.len(),
        first_of(list.take(k), f) is Some,
    ensures
        first_of(list, f) == first_of(list.take(k), f),
    decreases list.len(),
{
    if k < list.len() {
        assert(list.drop_last().take(k) =~= list.take(k));
        lemma_first_of_front(list.drop_last(), k, f);
    } else {
        assert(list.take(k) =~= list);
    }
}

/// What is first in a list is a member for which `f` holds.
pub proof fn lemma_first_of(list: Seq<int>, f: spec_fn(int) -> bool)
    ensures
        first_of(list, f) is Some ==> list.contains(first_of(list, f)->0) && f(first_of(list, f)->0),
    decreases list.len(),
{
    if list.len() > 0 {
        let front = list.drop_last();
        lemma_first_of(front, f);
        if first_of(front, f) is Some {
            let i = choose|i: int| 0 <= i < front.len() && front[i] == first_of(front, f)->0;
            assert(list[i] == first_of(front, f)->0);
        } else {
            assert(list[list.len() - 1] == list.last());
        }
    }
}

/// Holds for the nodes of a kind.
pub open spec fn of_kind(t: Seq<NodeView>, kind: Text) -> spec_fn(int) -> bool {
    |c: int| t[c].kind == kind
}

/// Holds for the nodes in a field.
pub open spec fn in_field(t: Seq<NodeView>, field: Text) -> spec_fn(int) -> bool {
    |c: int| t[c].field == Some(field)
}

/// Holds for the named nodes of some kinds.
pub open spec fn named_of_kinds(t: Seq<NodeView>, kinds: Seq<Text>) -> spec_fn(int) -> bool {
    |c: int| t[c].named && kinds.contains(t[c].kind)
}

/// Holds for the nodes that make up the contents of a string literal.
pub open spec fn of_string_content(t: Seq<NodeView>) -> spec_fn(int) -> bool {
    |c: int|
        t[c].kind == "string_fragment"@ || t[c].kind == "string_content"@ || t[c].kind
            == "escape_sequence"@
}

/// The child in a field stands behind its parent.
pub proof fn lemma_field_child(t: Seq<NodeView>, node: int, field: Text)
    requires
        0 <= node < t.len(),
    ensures
        field_child(t, node, field) is Some ==> node < field_child(t, node, field)->0 < t.len(),
{
    lemma_children(t, node);
    lemma_first_of(children(t, node), in_field(t, field));
    if field_child(t, node, field) is Some {
        let all = children(t, node);
        let k = choose|k: int| 0 <= k < all.len() && all[k] == field_child(t, node, field)->0;
        assert(all[k] == field_child(t, node, field)->0);
    }
}

/// The first child of a kind.
pub open spec fn kind_child(t: Seq<NodeView>, node: int, kind: Text) -> Option<int> {
    first_of(children(t, node), of_kind(t, kind))
}

/// The first child in a field.
pub open spec fn field_child(t: Seq<NodeView>, node: int, field: Text) -> Option<int> {
    first_of(children(t, node), in_field(t, field))
}

/// The children of a kind, in order.
pub open spec fn kind_children(t: Seq<NodeView>, node: int, kind: Text) -> Seq<int> {
    children(t, node).filter(of_kind(t, kind))
}

/// The children in a field, in order.
pub open spec fn field_children(t: Seq<NodeView>, node: int, field: Text) -> Seq<int> {
    children(t, node).filter(in_field(t, field))
}

/// The contents of a string literal as they stand in the source: from the start
/// of the first child that is part of them to the end of the last. An empty
/// literal has none.
pub open spec fn literal(t: Seq<NodeView>, src: Text, node: int) -> Option<Text> {
    let pieces = children(t, node).filter(of_string_content(t));
    if pieces.len() == 0 {
        None
    } else {
        Some(text_between(src, t[pieces[0]].start, t[pieces.last()].end))
    }
}

/// The number of an optional node.
pub open spec fn optional_number(node: Option<usize>) -> Option<int> {
    match node {
        Some(n) => Some(n as int),
        None => None,
    }
}

/// The kind of a node.
pub fn kind_of<'a>(tree: &'a SyntaxTree, node: usize) -> (r: &'a str)
    requires
        node < tree@.len(),
    ensures
        r@ == tree@[node as int].kind,
{
    tree.nodes[node].kind.as_str()
}

/// Whether a node is of a kind.
pub fn is_kind(tree: &SyntaxTree, node: usize, kind: &str) -> (r: bool)
    requires
        node < tree@.len(),
    ensures
        r == (tree@[node as int].kind == kind@),
{
    same(tree.nodes[node].kind.as_str(), kind)
}

/// The first child of a kind.
pub fn first_child_of_kind(tree: &SyntaxTree, node: usize, kind: &str) -> (r: Option<usize>)
    requires
        tree.wf(),
        node < tree@.len(),
    ensures
        optional_number(r) == kind_child(tree@, node as int, kind@),
        r is Some ==> node < r->0 < tree@.len(),
{
    let kids = tree.children(node);
    let ghost all = numbers(kids@);
    let ghost f = of_kind(tree@, kind@);
    let mut i: usize = 0;
    while i < kids.len()
        invariant
            i <= kids@.len(),
            all == numbers(kids@),
            all == children(tree@, node as int),
            f == of_kind(tree@, kind@),
            forall|k: int| 0 <= k < kids@.len() ==> node < #[trigger] kids@[k] < tree@.len(),
            first_of(all.take(i as int), f) is None,
        decreases kids@.len() - i,
    {
        assert(all.take(i + 1).drop_last() =~= all.take(i as int));
        assert(all.take(i + 1).last() == kids@[i as int]);
        if is_kind(tree, kids[i], kind) {
            proof {
                lemma_first_of_front(all, i + 1, f);
            }
            return Some(kids[i]);
        }
        i = i + 1;
    }
    assert(all.take(all.len() as int) =~= all);
    None
}

/// Whether a node stands in a field.
fn stands_in(tree: &SyntaxTree, node: usize, field: &str) -> (r: bool)
    requires
        node < tree@.len(),
    ensures
        r == (tree@[node as int].field == Some(field@)),
{
    match &tree.nodes[node].field {
        Some(f) => same(f.as_str(), field),
        None => false,
    }
}

/// The first child in a field.
pub fn child_by_field_name(tree: &SyntaxTree, node: usize, field: &str) -> (r: Option<usize>)
    requires
        tree.wf(),
        node < tree@.len(),
    ensures
        optional_number(r) == field_child(tree@, node as int, field@),
        r is Some ==> node < r->0 < tree@.len(),
{
    let kids = tree.children(node);
    let ghost all = numbers(kids@);
    let ghost f = in_field(tree@, field@);
    let mut i: usize = 0;
    while i < kids.len()
        invariant
            i <= kids@.len(),
            all == numbers(kids@),
            all == children(tree@, node as int),
            f == in_field(tree@, field@),
            forall|k: int| 0 <= k < kids@.len() ==> node < #[trigger] kids@[k] < tree@.len(),
            first_of(all.take(i as int), f) is None,
        decreases kids@.len() - i,
    {
        assert(all.take(i + 1).drop_last() =~= all.take(i as int));
        assert(all.take(i + 1).last() == kids@[i as int]);
        if stands_in(tree, kids[i], field) {
            proof {
                lemma_first_of_front(all, i + 1, f);
            }
            return Some(kids[i]);
        }
        i = i + 1;
    }
    assert(all.take(all.len() as int) =~= all);
    None
}

/// The first named child of one of some kinds.
pub fn first_named_child_of_kinds(tree: &SyntaxTree, node: usize, kinds: &[&str]) -> (r: Option<
    usize,
>)
    requires
        tree.wf(),
        node < tree@.len(),
    ensures
        optional_number(r) == first_of(
            children(tree@, node as int),
            named_of_kinds(tree@, strs(kinds@)),
        ),
        r is Some ==> node < r->0 < tree@.len(),
{
    let kids = tree.children(node);
    let ghost all = numbers(kids@);
    let ghost f = named_of_kinds(tree@, strs(kinds@));
    let mut i: usize = 0;
    while i < kids.len()
        invariant
            i <= kids@.len(),
            all == numbers(kids@),
            all == children(tree@, node as int),
            f == named_of_kinds(tree@, strs(kinds@)),
            forall|k: int| 0 <= k < kids@.len() ==> node < #[trigger] kids@[k] < tree@.len(),
            first_of(all.take(i as int), f) is None,
        decreases kids@.len() - i,
    {
        assert(all.take(i + 1).drop_last() =~= all.take(i as int));
        assert(all.take(i + 1).last() == kids@[i as int]);
        if tree.nodes[kids[i]].named && one_of(kinds, kind_of(tree, kids[i])) {
            proof {
                lemma_first_of_front(all, i + 1, f);
            }
            return Some(kids[i]);
        }
        i = i + 1;
    }
    assert(all.take(all.len() as int) =~= all);
    None
}

/// Whether a node has a child of a kind.
pub fn has_child_kind(tree: &SyntaxTree, node: usize, kind: &str) -> (r: bool)
    requires
        tree.wf(),
        node < tree@.len(),
    ensures
        r == (kind_child(tree@, node as int, kind@) is Some),
{
    first_child_of_kind(tree, node, kind).is_some()
}

/// The children of a kind, in order.
pub fn children_of_kind(tree: &SyntaxTree, node: usize, kind: &str) -> (r: Vec<usize>)
    requires
        tree.wf(),
        node < tree@.len(),
    ensures
        numbers(r@) == kind_children(tree@, node as int, kind@),
        forall|k: int| 0 <= k < r@.len() ==> node < #[trigger] r@[k] < tree@.len(),
{
    let kids = tree.children(node);
    let ghost all = numbers(kids@);
    let ghost f = of_kind(tree@, kind@);
    let mut out: Vec<usize> = Vec::new();
    let mut i: usize = 0;
    assert(numbers(out@) =~= all.take(0).filter(f)) by {
        reveal(Seq::filter);
    }
    while i < kids.len()
        invariant
            i <= kids@.len(),
            all == numbers(kids@),
            all == children(tree@, node as int),
            f == of_kind(tree@, kind@),
            forall|k: int| 0 <= k < kids@.len() ==> node < #[trigger] kids@[k] < tree@.len(),
            forall|k: int| 0 <= k < out@.len() ==> node < #[trigger] out@[k] < tree@.len(),
            numbers(out@) == all.take(i as int).filter(f),
        decreases kids@.len() - i,
    {
        let ghost was = numbers(out@);
        assert(all.take(i + 1) =~= all.take(i as int).push(kids@[i as int] as int));
        proof {
            all.take(i as int).lemma_filter_push(kids@[i as int] as int, f);
        }
        if is_kind(tree, kids[i], kind) {
            out.push(kids[i]);
            assert(numbers(out@) =~= was.push(kids@[i as int] as int));
        }
        i = i + 1;
    }
    assert(all.take(all.len() as int) =~= all);
    out
}

/// The children in a field, in order.
pub fn children_by_field_name(tree: &SyntaxTree, node: usize, field: &str) -> (r: Vec<usize>)
    requires
        tree.wf(),
        node < tree@.len(),
    ensures
        numbers(r@) == field_children(tree@, node as int, field@),
        forall|k: int| 0 <= k < r@.len() ==> node < #[trigger] r@[k] < tree@.len(),
{
    let kids = tree.children(node);
    let ghost all = numbers(kids@);
    let ghost f = in_field(tree@, field@);
    let mut out: Vec<usize> = Vec::new();
    let mut i: usize = 0;
    assert(numbers(out@) =~= all.take(0).filter(f)) by {
        reveal(Seq::filter);
    }
    while i < kids.len()
        invariant
            i <= kids@.len(),
            all == numbers(kids@),
            all == children(tree@, node as int),
            f == in_field(tree@, field@),
            forall|k: int| 0 <= k < kids@.len() ==> node < #[trigger] kids@[k] < tree@.len(),
            forall|k: int| 0 <= k < out@.len() ==> node < #[trigger] out@[k] < tree@.len(),
            numbers(out@) == all.take(i as int).filter(f),
        decreases kids@.len() - i,
    {
        let ghost was = numbers(out@);
        assert(all.take(i + 1) =~= all.take(i as int).push(kids@[i as int] as int));
        proof {
            all.take(i as int).lemma_filter_push(kids@[i as int] as int, f);
        }
        if stands_in(tree, kids[i], field) {
            out.push(kids[i]);
            assert(numbers(out@) =~= was.push(kids@[i as int] as int));
        }
        i = i + 1;
    }
    assert(all.take(all.len() as int) =~= all);
    out
}

/// The contents of a string literal as they stand in the source.
pub fn string_literal_content(tree: &SyntaxTree, node: usize, src: &str) -> (r: Option<String>)
    requires
        tree.wf(),
        node < tree@.len(),
    ensures
        optional_text(r) == literal(tree@, src@, node as int),
{
    let kids = tree.children(node);
    let ghost all = numbers(kids@);
    let ghost f = of_string_content(tree@);
    let mut pieces: Vec<usize> = Vec::new();
    let mut i: usize = 0;
    assert(numbers(pieces@) =~= all.take(0).filter(f)) by {
        reveal(Seq::filter);
    }
    while i < kids.len()
        invariant
            i <= kids@.len(),
            all == numbers(kids@),
            all == children(tree@, node as int),
            f == of_string_content(tree@),
            forall|k: int| 0 <= k < kids@.len() ==> node < #[trigger] kids@[k] < tree@.len(),
            forall|k: int| 0 <= k < pieces@.len() ==> node < #[trigger] pieces@[k] < tree@.len(),
            numbers(pieces@) == all.take(i as int).filter(f),
        decreases kids@.len() - i,
    {
        let ghost was = numbers(pieces@);
        assert(all.take(i + 1) =~= all.take(i as int).push(kids@[i as int] as int));
        proof {
            all.take(i as int).lemma_filter_push(kids@[i as int] as int, f);
        }
        if is_kind(tree, kids[i], "string_fragment") || is_kind(tree, kids[i], "string_content")
            || is_kind(tree, kids[i], "escape_sequence") {
            pieces.push(kids[i]);
            assert(numbers(pieces@) =~= was.push(kids@[i as int] as int));
        }
        i = i + 1;
    }
    assert(all.take(all.len() as int) =~= all);
    if pieces.is_empty() {
        return None;
    }
    let first = pieces[0];
    let last = pieces[pieces.len() - 1];
    assert(numbers(pieces@)[0] == first);
    assert(numbers(pieces@).last() == last);
    Some(slice_between(src, tree.nodes[first].start, tree.nodes[last].end).to_owned())
}

} // verus!
