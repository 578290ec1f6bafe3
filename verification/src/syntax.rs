//! Syntax trees: the nodes of a source file, each behind its parent, with
//! their depths.
use vstd::prelude::*;

use crate::text::{optional_text, Text};

verus! {

/// The grammars that source files are read with.
#[derive(Clone, Copy, Debug, PartialEq, Eq, Structural)]
pub enum Grammar {
    Java,
    Python,
    JavaScript,
    TypeScript,
    Tsx,
}

/// One node of a syntax tree.
pub struct SyntaxNode {
    /// What the grammar calls the node.
    pub kind: String,
    /// Whether the grammar names the node, as opposed to a literal token.
    pub named: bool,
    /// The field of its parent that the node stands in.
    pub field: Option<String>,
    /// The byte where its text starts.
    pub start: usize,
    /// The byte where its text ends.
    pub end: usize,
    /// How many nodes it lies in.
    pub depth: usize,
}

/// The view of a [`SyntaxNode`].
#[verifier::ext_equal]
pub struct NodeView {
    pub kind: Text,
    pub named: bool,
    pub field: Option<Text>,
    pub start: int,
    pub end: int,
    pub depth: int,
}

impl View for SyntaxNode {
    type V = NodeView;

    open spec fn view(&self) -> NodeView {
        NodeView {
            kind: self.kind@,
            named: self.named,
            field: optional_text(self.field),
            start: self.start as int,
            end: self.end as int,
            depth: self.depth as int,
        }
    }
}

/// The views of a list of nodes.
pub open spec fn node_views(list: Seq<SyntaxNode>) -> Seq<NodeView> {
    list.map_values(|n: SyntaxNode| n@)
}

/// `tree_sitter::Parser`.
#[verifier::external_type_specification]
#[verifier::external_body]
pub struct ExParser(tree_sitter::Parser);

/// `tree_sitter::Tree`, a parsed source file.
#[verifier::external_type_specification]
#[verifier::external_body]
pub struct ExTree(tree_sitter::Tree);

/// `tree_sitter::TreeCursor`, a place in a parsed source file.
#[verifier::external_type_specification]
#[verifier::external_body]
pub struct ExTreeCursor<'a>(tree_sitter::TreeCursor<'a>);

/// `tree_sitter::LanguageError`, for a grammar that the parser cannot work
/// with.
#[verifier::external_type_specification]
#[verifier::external_body]
pub struct ExLanguageError(tree_sitter::LanguageError);

/// The grammar that a parser was given last.
pub uninterp spec fn parser_grammar(parser: tree_sitter::Parser) -> Option<Grammar>;

/// The nodes that a parsed source file holds, a node before its children and
/// these from first to last.
pub uninterp spec fn tree_nodes(tree: tree_sitter::Tree) -> Seq<NodeView>;

/// The nodes of the source file that a cursor walks.
pub uninterp spec fn cursor_nodes(cursor: tree_sitter::TreeCursor) -> Seq<NodeView>;

/// The place of the node that a cursor is at.
pub uninterp spec fn cursor_place(cursor: tree_sitter::TreeCursor) -> int;

/// The nodes that tree-sitter makes of a source text, where `letters`, `spaces`
/// and `digits` are the characters in question that the C library takes for
/// letters, for white space and for digits.
pub uninterp spec fn nodes_read(
    grammar: Grammar,
    letters: Set<char>,
    spaces: Set<char>,
    digits: Set<char>,
    source: Text,
) -> Seq<NodeView>;

/// `tree_sitter::Parser::new`: a parser without a grammar.
#[verifier::external_body]
fn new_parser() -> (r: tree_sitter::Parser)
    ensures
        parser_grammar(r) is None,
{
    tree_sitter::Parser::new()
}

/// `tree_sitter::Parser::set_language`: gives the parser a grammar. It refuses
/// grammars made for a version that the parser cannot work with, and none of
/// these is one: all are of version 14, and the parser takes 13 and 14.
#[verifier::external_body]
fn set_language(parser: &mut tree_sitter::Parser, grammar: Grammar) -> (r: Result<
    (),
    tree_sitter::LanguageError,
>)
    ensures
        r is Ok,
        parser_grammar(*final(parser)) == Some(grammar),
{
    parser.set_language(
        &match grammar {
            Grammar::Java => tree_sitter_java::language(),
            Grammar::Python => tree_sitter_python::language(),
            Grammar::JavaScript => tree_sitter_javascript::language(),
            Grammar::TypeScript => tree_sitter_typescript::language_typescript(),
            Grammar::Tsx => tree_sitter_typescript::language_tsx(),
        },
    )
}

/// The characters of a text that locales may take differently. The scanners for
/// JavaScript and TypeScript ask the C library which characters are letters,
/// white space and digits, and outside ASCII that goes by the locale. The others
/// ask for nothing.
pub open spec fn in_question(grammar: Grammar, source: Text) -> Set<char> {
    if grammar is Java || grammar is Python {
        Set::empty()
    } else {
        Set::new(|c: char| (c as u32) >= 128 && source.contains(c))
    }
}

/// `tree_sitter::Parser::parse`, without an earlier tree: a tree of the whole
/// text. There would be none without a grammar, or where a timeout or a
/// cancellation was asked for. Which tree it is depends on the grammar, the text,
/// and what the locale takes the characters in question for.
#[verifier::external_body]
fn parse_tree(parser: &mut tree_sitter::Parser, source: &str) -> (r: Option<tree_sitter::Tree>)
    requires
        parser_grammar(*old(parser)) is Some,
    ensures
        r is Some,
        (exists|letters: Set<char>, spaces: Set<char>, digits: Set<char>|
            {
                &&& letters.subset_of(in_question(parser_grammar(*old(parser))->0, source@))
                &&& spaces.subset_of(in_question(parser_grammar(*old(parser))->0, source@))
                &&& digits.subset_of(in_question(parser_grammar(*old(parser))->0, source@))
                &&& tree_nodes(r->0) == #[trigger] nodes_read(
                    parser_grammar(*old(parser))->0,
                    letters,
                    spaces,
                    digits,
                    source@,
                )
            }),
{
    parser.parse(source, None)
}

/// What a locale takes for letters, for white space and for digits.
pub struct Locale {
    pub letters: Set<char>,
    pub spaces: Set<char>,
    pub digits: Set<char>,
}

/// The nodes of a source text in a locale.
pub open spec fn nodes_in(locale: Locale, grammar: Grammar, source: Text) -> Seq<NodeView> {
    let asked = in_question(grammar, source);
    nodes_read(
        grammar,
        locale.letters.intersect(asked),
        locale.spaces.intersect(asked),
        locale.digits.intersect(asked),
        source,
    )
}

/// Whether two locales take the characters in question of a text for the same.
pub open spec fn locales_agree(a: Locale, b: Locale, grammar: Grammar, source: Text) -> bool {
    forall|c: char| #[trigger]
        in_question(grammar, source).contains(c) ==> {
            &&& a.letters.contains(c) <==> b.letters.contains(c)
            &&& a.spaces.contains(c) <==> b.spaces.contains(c)
            &&& a.digits.contains(c) <==> b.digits.contains(c)
        }
}

/// A text has the same nodes in locales that agree on it.
pub proof fn nodes_follow_locale(a: Locale, b: Locale, grammar: Grammar, source: Text)
    requires
        locales_agree(a, b, grammar, source),
    ensures
        nodes_in(a, grammar, source) == nodes_in(b, grammar, source),
{
    let asked = in_question(grammar, source);
    assert(a.letters.intersect(asked) =~= b.letters.intersect(asked));
    assert(a.spaces.intersect(asked) =~= b.spaces.intersect(asked));
    assert(a.digits.intersect(asked) =~= b.digits.intersect(asked));
}

/// Whether a text is read the same in every locale: Java, Python, and any text
/// in ASCII.
pub open spec fn reads_alike(grammar: Grammar, source: Text) -> bool {
    ||| grammar is Java
    ||| grammar is Python
    ||| forall|i: int| 0 <= i < source.len() ==> ((#[trigger] source[i]) as u32) < 128
}

/// All locales agree on a text that is read the same in every one.
pub proof fn locales_agree_on_plain_text(a: Locale, b: Locale, grammar: Grammar, source: Text)
    requires
        reads_alike(grammar, source),
    ensures
        locales_agree(a, b, grammar, source),
{
    assert forall|c: char| !(#[trigger] in_question(grammar, source).contains(c)) by {
        if in_question(grammar, source).contains(c) {
            let i = choose|i: int| 0 <= i < source.len() && source[i] == c;
            assert((source[i] as u32) < 128);
        }
    }
}

/// Whether depths are those of a tree that is walked from its root, a node
/// before its children: the root alone lies in nothing, and a node lies at most
/// one deeper than the one before it.
pub open spec fn is_preorder(t: Seq<NodeView>) -> bool {
    &&& t.len() > 0
    &&& t[0].depth == 0
    &&& forall|i: int| 0 < i < t.len() ==> 1 <= (#[trigger] t[i]).depth <= t[i - 1].depth + 1
}

/// `tree_sitter::Tree::walk`: a cursor at the root of the tree.
#[verifier::external_body]
fn walk(tree: &tree_sitter::Tree) -> (r: tree_sitter::TreeCursor<'_>)
    ensures
        cursor_nodes(r) == tree_nodes(*tree),
        cursor_place(r) == 0,
        is_preorder(cursor_nodes(r)),
{
    tree.walk()
}

/// What `tree_sitter::TreeCursor::node`, `field_name` and `depth` give: the
/// node that the cursor is at, with its kind, whether it is named, its byte
/// range, its field and its depth.
#[verifier::external_body]
fn node_at(cursor: &tree_sitter::TreeCursor<'_>) -> (r: SyntaxNode)
    ensures
        r@ == cursor_nodes(*cursor)[cursor_place(*cursor)],
{
    SyntaxNode {
        kind: cursor.node().kind().to_string(),
        named: cursor.node().is_named(),
        field: cursor.field_name().map(str::to_string),
        start: cursor.node().start_byte(),
        end: cursor.node().end_byte(),
        depth: cursor.depth() as usize,
    }
}

/// Whether the node at `i` has a child, which then follows it.
pub open spec fn has_child(t: Seq<NodeView>, i: int) -> bool {
    i + 1 < t.len() && t[i + 1].depth > t[i].depth
}

/// `tree_sitter::TreeCursor::goto_first_child`: moves the cursor to the first
/// child of its node, where there is one.
#[verifier::external_body]
fn goto_first_child(cursor: &mut tree_sitter::TreeCursor<'_>) -> (r: bool)
    ensures
        cursor_nodes(*final(cursor)) == cursor_nodes(*old(cursor)),
        r == has_child(cursor_nodes(*old(cursor)), cursor_place(*old(cursor))),
        cursor_place(*final(cursor)) == (if r {
            cursor_place(*old(cursor)) + 1
        } else {
            cursor_place(*old(cursor))
        }),
{
    cursor.goto_first_child()
}

/// Whether the node at `i` has a sibling behind it, which then follows all that
/// lies in it.
pub open spec fn has_sibling(t: Seq<NodeView>, i: int) -> bool {
    end_of(t, i) < t.len() && t[end_of(t, i)].depth == t[i].depth
}

/// `tree_sitter::TreeCursor::goto_next_sibling`: moves the cursor to the next
/// sibling of its node, where there is one.
#[verifier::external_body]
fn goto_next_sibling(cursor: &mut tree_sitter::TreeCursor<'_>) -> (r: bool)
    ensures
        cursor_nodes(*final(cursor)) == cursor_nodes(*old(cursor)),
        r == has_sibling(cursor_nodes(*old(cursor)), cursor_place(*old(cursor))),
        cursor_place(*final(cursor)) == (if r {
            end_of(cursor_nodes(*old(cursor)), cursor_place(*old(cursor)))
        } else {
            cursor_place(*old(cursor))
        }),
{
    cursor.goto_next_sibling()
}

/// The last place before `j` whose node lies less deep than `depth`.
pub open spec fn last_above(t: Seq<NodeView>, depth: int, j: int) -> int
    decreases j,
{
    if j <= 0 {
        0
    } else if t[j - 1].depth < depth {
        j - 1
    } else {
        last_above(t, depth, j - 1)
    }
}

/// `tree_sitter::TreeCursor::goto_parent`: moves the cursor to the node that
/// its node lies in, unless it is at the root.
#[verifier::external_body]
fn goto_parent(cursor: &mut tree_sitter::TreeCursor<'_>) -> (r: bool)
    ensures
        cursor_nodes(*final(cursor)) == cursor_nodes(*old(cursor)),
        r == (cursor_place(*old(cursor)) != 0),
        cursor_place(*final(cursor)) == (if r {
            last_above(
                cursor_nodes(*old(cursor)),
                cursor_nodes(*old(cursor))[cursor_place(*old(cursor))].depth,
                cursor_place(*old(cursor)),
            )
        } else {
            cursor_place(*old(cursor))
        }),
{
    cursor.goto_parent()
}

proof fn lemma_last_above(t: Seq<NodeView>, depth: int, j: int)
    requires
        is_preorder(t),
        0 < j <= t.len(),
        depth >= 1,
        j < t.len() ==> t[j].depth >= depth,
    ensures
        0 <= last_above(t, depth, j) < j,
        t[last_above(t, depth, j)].depth < depth,
        j < t.len() ==> t[last_above(t, depth, j)].depth == depth - 1,
        forall|k: int| last_above(t, depth, j) < k < j ==> (#[trigger] t[k]).depth >= depth,
    decreases j,
{
    if t[j - 1].depth < depth {
    } else {
        assert(j > 1);
        lemma_last_above(t, depth, j - 1);
    }
}

/// A node without a sibling behind it ends where the node that it lies in ends.
proof fn lemma_ends_with_parent(t: Seq<NodeView>, i: int)
    requires
        is_preorder(t),
        0 < i < t.len(),
        !has_sibling(t, i),
    ensures
        ({
            let p = last_above(t, t[i].depth, i);
            &&& 0 <= p < i
            &&& t[p].depth < t[i].depth
            &&& end_of(t, p) == end_of(t, i)
        }),
{
    let d = t[i].depth;
    lemma_last_above(t, d, i);
    let p = last_above(t, d, i);
    lemma_range_end(t, d, i + 1);
    lemma_range_end(t, t[p].depth, p + 1);
    let e = end_of(t, i);
    let f = end_of(t, p);
    if f < e {
        assert(t[f].depth >= d);
    }
    if e < f {
        assert(t[e].depth > t[p].depth);
    }
}

/// The nodes of a tree.
fn list_nodes(tree: &tree_sitter::Tree) -> (r: Vec<SyntaxNode>)
    ensures
        node_views(r@) == tree_nodes(*tree),
        is_preorder(tree_nodes(*tree)),
{
    let ghost t = tree_nodes(*tree);
    let mut cursor = walk(tree);
    let mut list: Vec<SyntaxNode> = Vec::new();
    assert(node_views(list@) =~= t.take(0));
    loop
        invariant
            t == tree_nodes(*tree),
            is_preorder(t),
            cursor_nodes(cursor) == t,
            0 <= cursor_place(cursor) < t.len(),
            node_views(list@) == t.take(cursor_place(cursor)),
        decreases t.len() - cursor_place(cursor),
    {
        let ghost at = cursor_place(cursor);
        let ghost was = node_views(list@);
        list.push(node_at(&cursor));
        assert(node_views(list@) =~= was.push(t[at]));
        assert(node_views(list@) =~= t.take(at + 1));
        let mut moved = goto_first_child(&mut cursor);
        if !moved {
            assert(end_of(t, at) == at + 1);
            moved = goto_next_sibling(&mut cursor);
            while !moved
                invariant
                    t == tree_nodes(*tree),
                    is_preorder(t),
                    cursor_nodes(cursor) == t,
                    0 <= at < t.len(),
                    node_views(list@) == t.take(at + 1),
                    0 <= cursor_place(cursor) < t.len(),
                    moved ==> cursor_place(cursor) == at + 1,
                    !moved ==> end_of(t, cursor_place(cursor)) == at + 1 && !has_sibling(
                        t,
                        cursor_place(cursor),
                    ),
                decreases (if moved { 0int } else { t[cursor_place(cursor)].depth + 1 }),
            {
                let ghost here = cursor_place(cursor);
                if !goto_parent(&mut cursor) {
                    proof {
                        lemma_range_end(t, 0, 1);
                        assert(t.take(at + 1) =~= t);
                    }
                    return list;
                }
                proof {
                    lemma_ends_with_parent(t, here);
                    assert(t[cursor_place(cursor)].depth >= 0) by {
                        assert(cursor_place(cursor) == 0 || t[cursor_place(cursor)].depth >= 1);
                    }
                }
                moved = goto_next_sibling(&mut cursor);
            }
        }
    }
}

/// The first place from `j` on whose node lies no deeper than `depth`.
pub open spec fn range_end(t: Seq<NodeView>, depth: int, j: int) -> int
    decreases t.len() - j,
{
    if j < 0 || j >= t.len() {
        t.len() as int
    } else if t[j].depth <= depth {
        j
    } else {
        range_end(t, depth, j + 1)
    }
}

/// The place behind the last node that lies in the node at `i`.
pub open spec fn end_of(t: Seq<NodeView>, i: int) -> int {
    range_end(t, t[i].depth, i + 1)
}

/// The nodes from `c` up to `e` that lie in no other of these.
pub open spec fn siblings(t: Seq<NodeView>, c: int, e: int) -> Seq<int>
    decreases t.len() - c,
{
    if c < 0 || c >= e || e > t.len() {
        Seq::empty()
    } else {
        proof {
            lemma_end_of(t, c);
        }
        seq![c] + siblings(t, end_of(t, c), e)
    }
}

/// The children of the node at `i`, from first to last.
pub open spec fn children(t: Seq<NodeView>, i: int) -> Seq<int> {
    siblings(t, i + 1, end_of(t, i))
}

/// The nodes from `c` up to `e`, each before the nodes that lie in it, and of
/// two that lie side by side the later one first.
pub open spec fn visit_order(t: Seq<NodeView>, c: int, e: int) -> Seq<int>
    decreases e - c,
{
    if c < 0 || c >= e || e > t.len() {
        Seq::empty()
    } else {
        let m = if end_of(t, c) < e {
            end_of(t, c)
        } else {
            e
        };
        proof {
            lemma_end_of(t, c);
        }
        visit_order(t, m, e) + seq![c] + visit_order(t, c + 1, m)
    }
}

/// The order in which a tree is visited: a node before its children, and
/// these from last to first.
pub open spec fn visits(t: Seq<NodeView>) -> Seq<int> {
    if t.len() == 0 {
        Seq::empty()
    } else {
        visit_order(t, 0, end_of(t, 0))
    }
}

/// The children of the root.
pub open spec fn top_level(t: Seq<NodeView>) -> Seq<int> {
    if t.len() == 0 {
        Seq::empty()
    } else {
        children(t, 0)
    }
}

pub proof fn lemma_range_end(t: Seq<NodeView>, depth: int, j: int)
    requires
        0 <= j <= t.len(),
    ensures
        j <= range_end(t, depth, j) <= t.len(),
        range_end(t, depth, j) < t.len() ==> t[range_end(t, depth, j)].depth <= depth,
        forall|k: int| j <= k < range_end(t, depth, j) ==> (#[trigger] t[k]).depth > depth,
    decreases t.len() - j,
{
    if j < t.len() && t[j].depth > depth {
        lemma_range_end(t, depth, j + 1);
    }
}

/// A node ends behind itself.
pub proof fn lemma_end_of(t: Seq<NodeView>, i: int)
    requires
        0 <= i < t.len(),
    ensures
        i < end_of(t, i) <= t.len(),
{
    lemma_range_end(t, t[i].depth, i + 1);
}

/// A node that lies in another ends no later.
pub proof fn lemma_nested(t: Seq<NodeView>, i: int, c: int)
    requires
        0 <= i < c < end_of(t, i),
        i < t.len(),
    ensures
        c < end_of(t, c) <= end_of(t, i) <= t.len(),
{
    lemma_range_end(t, t[i].depth, i + 1);
    lemma_range_end(t, t[c].depth, c + 1);
    let e = end_of(t, i);
    if end_of(t, c) > e {
        assert(t[e].depth > t[c].depth);
        assert(t[c].depth > t[i].depth);
    }
}

proof fn lemma_siblings(t: Seq<NodeView>, i: int, c: int)
    requires
        0 <= i < c,
        i < t.len(),
        c <= end_of(t, i),
    ensures
        forall|k: int|
            0 <= k < siblings(t, c, end_of(t, i)).len() ==>
                c <= (#[trigger] siblings(t, c, end_of(t, i))[k]) < end_of(t, i),
    decreases end_of(t, i) - c,
{
    let e = end_of(t, i);
    if c < e {
        lemma_nested(t, i, c);
        lemma_siblings(t, i, end_of(t, c));
        let rest = siblings(t, end_of(t, c), e);
        let all = siblings(t, c, e);
        assert(all =~= seq![c] + rest);
        assert forall|k: int| 0 <= k < all.len() implies c <= (#[trigger] all[k]) < e by {
            if k > 0 {
                assert(all[k] == rest[k - 1]);
            }
        }
    }
}

/// The children of a node are nodes that lie in it.
pub proof fn lemma_children(t: Seq<NodeView>, i: int)
    requires
        0 <= i < t.len(),
    ensures
        forall|k: int|
            0 <= k < children(t, i).len() ==> i < (#[trigger] children(t, i)[k]) < end_of(t, i) <= t.len(),
{
    lemma_end_of(t, i);
    lemma_siblings(t, i, i + 1);
}

/// Every node of a tree is visited, and none twice.
pub proof fn every_node_is_visited_once(t: Seq<NodeView>)
    requires
        is_preorder(t),
    ensures
        visits(t).no_duplicates(),
        forall|c: int| visits(t).contains(c) <==> 0 <= c < t.len(),
{
    lemma_range_end(t, 0, 1);
    lemma_visit_order(t, 0, t.len() as int);
}

proof fn lemma_visit_order(t: Seq<NodeView>, c: int, e: int)
    requires
        0 <= c,
        e <= t.len(),
    ensures
        visit_order(t, c, e).no_duplicates(),
        forall|k: int| #[trigger] visit_order(t, c, e).contains(k) <==> c <= k < e,
    decreases e - c,
{
    if c < e {
        lemma_end_of(t, c);
        let m = if end_of(t, c) < e {
            end_of(t, c)
        } else {
            e
        };
        let x = visit_order(t, m, e);
        let y = visit_order(t, c + 1, m);
        let all = visit_order(t, c, e);
        lemma_visit_order(t, m, e);
        lemma_visit_order(t, c + 1, m);
        assert(all == x + seq![c] + y);
        assert forall|k: int| #[trigger] all.contains(k) <==> c <= k < e by {
            if all.contains(k) {
                let i = choose|i: int| 0 <= i < all.len() && all[i] == k;
                if i < x.len() {
                    assert(x[i] == k);
                    assert(x.contains(k));
                } else if i > x.len() {
                    assert(y[i - x.len() - 1] == k);
                    assert(y.contains(k));
                }
            }
            if c <= k < e {
                if k == c {
                    assert(all[x.len() as int] == k);
                } else if k < m {
                    assert(y.contains(k));
                    let i = choose|i: int| 0 <= i < y.len() && y[i] == k;
                    assert(all[x.len() + 1 + i] == k);
                } else {
                    assert(x.contains(k));
                    let i = choose|i: int| 0 <= i < x.len() && x[i] == k;
                    assert(all[i] == k);
                }
            }
        }
        assert forall|i: int, j: int| 0 <= i < all.len() && 0 <= j < all.len() && i != j implies all[i]
            != all[j] by {
            lemma_which(x, c, y, m, e, i);
            lemma_which(x, c, y, m, e, j);
        }
    }
}

proof fn lemma_which(x: Seq<int>, c: int, y: Seq<int>, m: int, e: int, i: int)
    requires
        forall|k: int| #[trigger] x.contains(k) <==> m <= k < e,
        forall|k: int| #[trigger] y.contains(k) <==> c + 1 <= k < m,
        c < m,
        0 <= i < x.len() + 1 + y.len(),
    ensures
        ({
            let v = (x + seq![c] + y)[i];
            if i < x.len() {
                m <= v && v == x[i]
            } else if i == x.len() {
                v == c
            } else {
                c < v < m && v == y[i - x.len() - 1]
            }
        }),
{
    if i < x.len() {
        assert(x.contains(x[i]));
    } else if i > x.len() {
        assert(y.contains(y[i - x.len() - 1]));
    }
}

/// The numbers of a list.
pub open spec fn numbers(list: Seq<usize>) -> Seq<int> {
    list.map_values(|x: usize| x as int)
}

/// A syntax tree.
pub struct SyntaxTree {
    pub nodes: Vec<SyntaxNode>,
    pub ends: Vec<usize>,
}

impl View for SyntaxTree {
    type V = Seq<NodeView>;

    open spec fn view(&self) -> Seq<NodeView> {
        node_views(self.nodes@)
    }
}

impl SyntaxTree {
    /// The end of every node is known.
    pub open spec fn wf(&self) -> bool {
        &&& self.ends@.len() == self.nodes@.len()
        &&& forall|i: int| 0 <= i < self.ends@.len() ==> #[trigger] self.ends@[i] == end_of(self@, i)
    }

    /// The tree of a list of nodes.
    pub fn new(nodes: Vec<SyntaxNode>) -> (r: SyntaxTree)
        ensures
            r.wf(),
            r@ == node_views(nodes@),
    {
        let n = nodes.len();
        let ghost t = node_views(nodes@);
        let mut ends: Vec<usize> = Vec::new();
        let mut i: usize = 0;
        while i < n
            invariant
                i <= n,
                ends@.len() == i,
            decreases n - i,
        {
            ends.push(0);
            i = i + 1;
        }
        while i > 0
            invariant
                i <= n,
                n == nodes@.len(),
                ends@.len() == n,
                t == node_views(nodes@),
                forall|k: int| i <= k < n ==> #[trigger] ends@[k] == end_of(t, k),
            decreases i,
        {
            let k: usize = i - 1;
            let depth = nodes[k].depth;
            let mut j: usize = i;
            while j < n && nodes[j].depth > depth
                invariant
                    k < i <= j <= n,
                    n == nodes@.len(),
                    ends@.len() == n,
                    t == node_views(nodes@),
                    depth == t[k as int].depth,
                    forall|m: int| i <= m < n ==> #[trigger] ends@[m] == end_of(t, m),
                    range_end(t, depth as int, j as int) == end_of(t, k as int),
                decreases n - j,
            {
                proof {
                    lemma_end_of(t, j as int);
                    lemma_skip(t, depth as int, j as int);
                }
                j = ends[j];
            }
            ends.set(k, j);
            i = k;
        }
        SyntaxTree { nodes, ends }
    }

    /// How many nodes the tree has.
    pub fn len(&self) -> (r: usize)
        ensures
            r == self@.len(),
    {
        self.nodes.len()
    }

    /// The children of a node.
    pub fn children(&self, node: usize) -> (r: Vec<usize>)
        requires
            self.wf(),
            node < self@.len(),
        ensures
            numbers(r@) == children(self@, node as int),
            forall|k: int| 0 <= k < r@.len() ==> node < #[trigger] r@[k] < self@.len(),
    {
        let ghost t = self@;
        let ghost all = children(t, node as int);
        let end = self.ends[node];
        let mut out: Vec<usize> = Vec::new();
        proof {
            lemma_end_of(t, node as int);
        }
        let mut c: usize = node + 1;
        assert(numbers(out@) + siblings(t, c as int, end as int) =~= all);
        while c < end
            invariant
                self.wf(),
                t == self@,
                node < t.len(),
                all == children(t, node as int),
                end == end_of(t, node as int),
                node < c <= end <= t.len(),
                numbers(out@) + siblings(t, c as int, end as int) =~= all,
                forall|k: int| 0 <= k < out@.len() ==> node < #[trigger] out@[k] < t.len(),
            decreases end - c,
        {
            proof {
                lemma_nested(t, node as int, c as int);
            }
            let ghost was = numbers(out@);
            out.push(c);
            assert(numbers(out@) =~= was.push(c as int));
            c = self.ends[c];
        }
        assert(siblings(t, c as int, end as int) =~= Seq::<int>::empty());
        out
    }

    /// The children of the root.
    pub fn top_level(&self) -> (r: Vec<usize>)
        requires
            self.wf(),
        ensures
            numbers(r@) == top_level(self@),
            forall|k: int| 0 <= k < r@.len() ==> #[trigger] r@[k] < self@.len(),
    {
        if self.nodes.len() == 0 {
            let out: Vec<usize> = Vec::new();
            assert(numbers(out@) =~= Seq::<int>::empty());
            out
        } else {
            self.children(0)
        }
    }

    /// The nodes in the order of a visit.
    pub fn visits(&self) -> (r: Vec<usize>)
        requires
            self.wf(),
        ensures
            numbers(r@) == visits(self@),
            forall|k: int| 0 <= k < r@.len() ==> #[trigger] r@[k] < self@.len(),
    {
        let ghost t = self@;
        let mut out: Vec<usize> = Vec::new();
        let mut stack: Vec<usize> = Vec::new();
        if self.nodes.len() == 0 {
            assert(numbers(out@) =~= Seq::<int>::empty());
            return out;
        }
        stack.push(0);
        proof {
            lemma_end_of(t, 0);
            reveal_with_fuel(visit_order, 2);
            assert(numbers(stack@) =~= seq![0int]);
            assert(seq![0int].drop_last() =~= Seq::<int>::empty());
            reveal_with_fuel(still, 2);
            assert(numbers(out@) + still(t, numbers(stack@)) =~= visits(t));
        }
        while stack.len() > 0
            invariant
                self.wf(),
                t == self@,
                t.len() > 0,
                forall|k: int| 0 <= k < stack@.len() ==> #[trigger] stack@[k] < t.len(),
                forall|k: int| 0 <= k < out@.len() ==> #[trigger] out@[k] < t.len(),
                numbers(out@) + still(t, numbers(stack@)) =~= visits(t),
            decreases still(t, numbers(stack@)).len(),
        {
            let ghost was = numbers(stack@);
            let ghost done = numbers(out@);
            let node = stack.pop().unwrap();
            let ghost rest = numbers(stack@);
            assert(rest =~= was.drop_last());
            assert(was.last() == node);
            out.push(node);
            assert(numbers(out@) =~= done.push(node as int));
            let kids = self.children(node);
            let mut k: usize = 0;
            while k < kids.len()
                invariant
                    k <= kids@.len(),
                    numbers(stack@) =~= rest + numbers(kids@).take(k as int),
                    forall|m: int| 0 <= m < kids@.len() ==> #[trigger] kids@[m] < t.len(),
                    forall|m: int| 0 <= m < stack@.len() ==> #[trigger] stack@[m] < t.len(),
                decreases kids@.len() - k,
            {
                let ghost mid = numbers(stack@);
                stack.push(kids[k]);
                assert(numbers(stack@) =~= mid.push(kids@[k as int] as int));
                k = k + 1;
            }
            proof {
                let e = end_of(t, node as int);
                lemma_end_of(t, node as int);
                assert(numbers(kids@).take(kids@.len() as int) =~= numbers(kids@));
                assert(numbers(stack@) =~= rest + siblings(t, node + 1, e));
                lemma_still(t, rest, node as int, node + 1);
                assert(still(t, was) == seq![node as int] + visit_order(t, node + 1, e) + still(t, rest));
                assert(still(t, numbers(stack@)) == visit_order(t, node + 1, e) + still(t, rest));
            }
        }
        proof {
            assert(numbers(stack@) =~= Seq::<int>::empty());
            assert(still(t, numbers(stack@)) =~= Seq::<int>::empty());
        }
        out
    }
}

/// What is still to be visited: the nodes of the stack from the top down,
/// each with all that lies in it.
spec fn still(t: Seq<NodeView>, stack: Seq<int>) -> Seq<int>
    decreases stack.len(),
{
    if stack.len() == 0 {
        Seq::empty()
    } else {
        let x = stack.last();
        seq![x] + visit_order(t, x + 1, end_of(t, x)) + still(t, stack.drop_last())
    }
}

/// Visiting siblings from the top of the stack is visiting the range.
proof fn lemma_still(t: Seq<NodeView>, rest: Seq<int>, i: int, c: int)
    requires
        0 <= i < c <= end_of(t, i),
        i < t.len(),
    ensures
        still(t, rest + siblings(t, c, end_of(t, i))) == visit_order(t, c, end_of(t, i)) + still(t, rest),
    decreases end_of(t, i) - c,
{
    let e = end_of(t, i);
    lemma_end_of(t, i);
    if c >= e {
        assert(rest + siblings(t, c, e) =~= rest);
        assert(visit_order(t, c, e) + still(t, rest) =~= still(t, rest));
    } else {
        lemma_nested(t, i, c);
        let m = end_of(t, c);
        let more = rest.push(c);
        assert(rest + siblings(t, c, e) =~= more + siblings(t, m, e));
        lemma_still(t, more, i, m);
        assert(more.drop_last() =~= rest);
        assert(more.last() == c);
        assert(still(t, more) == seq![c] + visit_order(t, c + 1, m) + still(t, rest));
        assert(visit_order(t, m, e) + (seq![c] + visit_order(t, c + 1, m) + still(t, rest)) =~= (
        visit_order(t, m, e) + seq![c] + visit_order(t, c + 1, m)) + still(t, rest));
    }
}

/// A range that has reached a node deeper than its bound goes on behind all
/// that lies in that node.
proof fn lemma_skip(t: Seq<NodeView>, depth: int, j: int)
    requires
        0 <= j < t.len(),
        t[j].depth > depth,
    ensures
        range_end(t, depth, j) == range_end(t, depth, end_of(t, j)),
{
    lemma_range_end(t, t[j].depth, j + 1);
    lemma_advance(t, depth, j, end_of(t, j));
}

proof fn lemma_advance(t: Seq<NodeView>, depth: int, j: int, k: int)
    requires
        0 <= j <= k <= t.len(),
        forall|m: int| j <= m < k ==> (#[trigger] t[m]).depth > depth,
    ensures
        range_end(t, depth, j) == range_end(t, depth, k),
    decreases k - j,
{
    if j < k {
        lemma_advance(t, depth, j + 1, k);
    }
}

/// The error for a grammar that cannot be worked with.
#[derive(Clone, Copy, Debug, PartialEq, Eq, Structural)]
pub struct GrammarError {
    pub grammar: Grammar,
}

/// The syntax tree of a source text: that of its nodes in some locale. Every
/// grammar can be worked with, and every text has a tree.
pub fn parse(grammar: Grammar, source: &str) -> (r: Result<Option<SyntaxTree>, GrammarError>)
    ensures
        r is Ok,
        r->Ok_0 is Some,
        r->Ok_0->0.wf(),
        is_preorder(r->Ok_0->0@),
        (exists|locale: Locale| r->Ok_0->0@ == #[trigger] nodes_in(locale, grammar, source@)),
{
    let mut parser = new_parser();
    match set_language(&mut parser, grammar) {
        Ok(_) => match parse_tree(&mut parser, source) {
            Some(tree) => {
                proof {
                    let asked = in_question(grammar, source@);
                    let (letters, spaces, digits) = choose|
                        letters: Set<char>,
                        spaces: Set<char>,
                        digits: Set<char>,
                    |
                        {
                            &&& letters.subset_of(asked)
                            &&& spaces.subset_of(asked)
                            &&& digits.subset_of(asked)
                            &&& tree_nodes(tree) == #[trigger] nodes_read(
                                grammar,
                                letters,
                                spaces,
                                digits,
                                source@,
                            )
                        };
                    let locale = Locale { letters, spaces, digits };
                    assert(letters.intersect(asked) =~= letters);
                    assert(spaces.intersect(asked) =~= spaces);
                    assert(digits.intersect(asked) =~= digits);
                    assert(tree_nodes(tree) == nodes_in(locale, grammar, source@));
                }
                Ok(Some(SyntaxTree::new(list_nodes(&tree))))
            },
            None => Ok(None),
        },
        Err(_) => Err(GrammarError { grammar }),
    }
}

} // verus!
