//! What the nodes of a syntax tree read as.
use vstd::prelude::*;
use vstd::utf8::*;

use crate::syntax::{
    children, end_of, is_preorder, lemma_end_of, lemma_nested, lemma_range_end, siblings, visit_order, visits, NodeView,
};
use crate::text::Text;
use crate::tsutil::{
    field_child, field_children, first_of, in_field, kind_child, kind_children, lemma_first_of, literal, of_kind,
    of_string_content, text_between, text_of,
};

verus! {

proof fn lemma_encode_both(a: Text, b: Text)
    ensures
        encode_utf8(a + b) == encode_utf8(a) + encode_utf8(b),
    decreases a.len(),
{
    let s = a + b;
    if a.len() == 0 {
        assert(s =~= b);
        assert(encode_utf8(a) + encode_utf8(b) =~= encode_utf8(b));
    } else {
        assert(s.drop_first() =~= a.drop_first() + b);
        assert(s[0] == a[0]);
        lemma_encode_both(a.drop_first(), b);
        assert(encode_utf8(s) =~= encode_utf8(a) + encode_utf8(b));
    }
}

proof fn lemma_boundary(a: Text, b: Text)
    ensures
        is_char_boundary(encode_utf8(a + b), encode_utf8(a).len() as int),
    decreases a.len(),
{
    let s = a + b;
    let bytes = encode_utf8(s);
    encode_utf8_valid_utf8(s);
    if a.len() == 0 {
        assert(encode_utf8(a).len() == 0);
    } else {
        let rest = a.drop_first();
        assert(s[0] == a[0]);
        assert(s.drop_first() =~= rest + b);
        encode_utf8_first_scalar(s);
        lemma_encode_both(a, b);
        lemma_boundary(rest, b);
        assert(pop_first_scalar(bytes) =~= encode_utf8(rest + b));
        assert(encode_utf8(a).len() == length_of_first_scalar(bytes) + encode_utf8(rest).len());
    }
}

/// What stands between two places of a text, counted in bytes, is read as it is.
proof fn lemma_between(x: Text, y: Text, z: Text)
    ensures
        text_between(x + y + z, encode_utf8(x).len() as int, encode_utf8(x + y).len() as int) == y,
{
    let src = x + y + z;
    let start = encode_utf8(x).len() as int;
    let end = encode_utf8(x + y).len() as int;
    assert(src =~= x + (y + z));
    lemma_boundary(x, y + z);
    lemma_boundary(x + y, z);
    lemma_encode_both(x + y, z);
    lemma_encode_both(x, y);
    assert(encode_utf8(src).subrange(start, end) =~= encode_utf8(y));
    encode_utf8_decode_utf8(y);
}

/// A node reads as what stands between its ends, which are counted in bytes.
pub proof fn nodes_read_as_they_are_written(t: Seq<NodeView>, node: int, x: Text, y: Text, z: Text)
    requires
        t[node].start == encode_utf8(x).len(),
        t[node].end == encode_utf8(x + y).len(),
    ensures
        text_of(t, x + y + z, node) == y,
{
    lemma_between(x, y, z);
}

/// Whether a node lies directly in another: one deeper, with nothing between them
/// that lies outside.
pub open spec fn lies_directly_in(t: Seq<NodeView>, i: int, c: int) -> bool {
    &&& i < c < t.len()
    &&& t[c].depth == t[i].depth + 1
    &&& forall|k: int| i < k < c ==> (#[trigger] t[k]).depth > t[i].depth
}

/// Whether a list holds the nodes of a depth from `c` up to `e`, in order.
#[verifier::opaque]
spec fn lists_level(list: Seq<int>, t: Seq<NodeView>, depth: int, c: int, e: int) -> bool {
    &&& forall|n: int| #[trigger] list.contains(n) <==> c <= n < e && t[n].depth == depth
    &&& forall|a: int, b: int| 0 <= a < b < list.len() ==> (#[trigger] list[a]) < (#[trigger] list[b])
}

proof fn lemma_one_before(rest: Seq<int>, t: Seq<NodeView>, depth: int, c: int, m: int, e: int)
    requires
        lists_level(rest, t, depth, m, e),
        0 <= c < m <= e,
        t[c].depth == depth,
        forall|n: int| c < n < m ==> (#[trigger] t[n]).depth > depth,
    ensures
        lists_level(seq![c] + rest, t, depth, c, e),
{
    reveal(lists_level);
    let all = seq![c] + rest;
    assert forall|n: int| #[trigger] all.contains(n) <==> c <= n < e && t[n].depth == depth by {
        if all.contains(n) {
            let k = choose|k: int| 0 <= k < all.len() && all[k] == n;
            if k > 0 {
                assert(rest[k - 1] == n);
                assert(rest.contains(n));
            }
        }
        if c <= n < e && t[n].depth == depth {
            if n == c {
                assert(all[0] == c);
            } else {
                assert(rest.contains(n));
                let k = choose|k: int| 0 <= k < rest.len() && rest[k] == n;
                assert(all[k + 1] == n);
            }
        }
    }
    assert forall|a: int, b: int| 0 <= a < b < all.len() implies (#[trigger] all[a]) < (#[trigger] all[b]) by {
        assert(all[b] == rest[b - 1]);
        if a > 0 {
            assert(all[a] == rest[a - 1]);
        } else {
            assert(rest.contains(rest[b - 1]));
        }
    }
}

proof fn lemma_lie_side_by_side(t: Seq<NodeView>, i: int, c: int)
    requires
        is_preorder(t),
        0 <= i < c <= end_of(t, i),
        i < t.len(),
        c < end_of(t, i) ==> t[c].depth == t[i].depth + 1,
    ensures
        lists_level(siblings(t, c, end_of(t, i)), t, t[i].depth + 1, c, end_of(t, i)),
    decreases end_of(t, i) - c,
{
    let e = end_of(t, i);
    lemma_end_of(t, i);
    if c < e {
        lemma_nested(t, i, c);
        let m = end_of(t, c);
        assert(m < e ==> t[m].depth == t[i].depth + 1) by {
            lemma_range_end(t, t[i].depth, i + 1);
            lemma_range_end(t, t[c].depth, c + 1);
        }
        lemma_lie_side_by_side(t, i, m);
        assert forall|n: int| c < n < m implies (#[trigger] t[n]).depth > t[i].depth + 1 by {
            lemma_range_end(t, t[c].depth, c + 1);
        }
        lemma_one_before(siblings(t, m, e), t, t[i].depth + 1, c, m, e);
    } else {
        reveal(lists_level);
    }
}

/// The children of a node are those that lie directly in it, in the order in which
/// they stand.
pub proof fn children_lie_directly_in(t: Seq<NodeView>, i: int)
    requires
        is_preorder(t),
        0 <= i < t.len(),
    ensures
        forall|c: int| #[trigger] children(t, i).contains(c) <==> lies_directly_in(t, i, c),
        forall|a: int, b: int|
            0 <= a < b < children(t, i).len() ==> (#[trigger] children(t, i)[a]) < (#[trigger] children(t, i)[b]),
{
    lemma_end_of(t, i);
    lemma_range_end(t, t[i].depth, i + 1);
    let e = end_of(t, i);
    if i + 1 < e {
        assert(t[i + 1].depth <= t[i + 1 - 1].depth + 1);
    }
    lemma_lie_side_by_side(t, i, i + 1);
    reveal(lists_level);
    assert forall|c: int| #[trigger] children(t, i).contains(c) <==> lies_directly_in(t, i, c) by {
        if children(t, i).contains(c) {
            assert(t[c].depth == t[i].depth + 1);
        }
        if lies_directly_in(t, i, c) {
            if c >= e {
                assert(e < t.len());
                assert(t[e].depth <= t[i].depth);
            }
            assert(t[c].depth == t[i].depth + 1);
        }
    }
}

proof fn lemma_first(list: Seq<int>, f: spec_fn(int) -> bool, c: int)
    requires
        forall|a: int, b: int| 0 <= a < b < list.len() ==> (#[trigger] list[a]) < (#[trigger] list[b]),
    ensures
        first_of(list, f) == Some(c) <==> list.contains(c) && f(c) && forall|d: int|
            list.contains(d) && #[trigger] f(d) ==> c <= d,
        first_of(list, f) is None <==> forall|d: int| list.contains(d) ==> !#[trigger] f(d),
    decreases list.len(),
{
    lemma_first_of(list, f);
    if list.len() > 0 {
        let front = list.drop_last();
        assert forall|a: int, b: int| 0 <= a < b < front.len() implies (#[trigger] front[a]) < (
        #[trigger] front[b]) by {
            assert(list[a] < list[b]);
        }
        lemma_first(front, f, c);
        let last = list[list.len() - 1];
        assert forall|d: int| list.contains(d) <==> front.contains(d) || d == last by {
            if list.contains(d) && d != last {
                let k = choose|k: int| 0 <= k < list.len() && list[k] == d;
                assert(front[k] == d);
            }
            if front.contains(d) {
                let k = choose|k: int| 0 <= k < front.len() && front[k] == d;
                assert(list[k] == d);
            }
            assert(list.contains(last));
        }
        assert forall|d: int| front.contains(d) implies d < last by {
            let k = choose|k: int| 0 <= k < front.len() && front[k] == d;
            assert(list[k] < last);
        }
        if let Some(x) = first_of(front, f) {
            lemma_first(front, f, x);
        }
    }
}

/// Of several children in a field, and of several of a kind, the first counts.
pub proof fn the_first_child_counts(t: Seq<NodeView>, node: int, word: Text, c: int)
    requires
        is_preorder(t),
        0 <= node < t.len(),
    ensures
        field_child(t, node, word) == Some(c) <==> lies_directly_in(t, node, c) && t[c].field == Some(word)
            && forall|d: int|
            lies_directly_in(t, node, d) && (#[trigger] t[d]).field == Some(word) ==> c <= d,
        field_child(t, node, word) is None <==> forall|d: int|
            lies_directly_in(t, node, d) ==> (#[trigger] t[d]).field != Some(word),
        kind_child(t, node, word) == Some(c) <==> lies_directly_in(t, node, c) && t[c].kind == word && forall|d: int|
            lies_directly_in(t, node, d) && (#[trigger] t[d]).kind == word ==> c <= d,
        kind_child(t, node, word) is None <==> forall|d: int|
            lies_directly_in(t, node, d) ==> (#[trigger] t[d]).kind != word,
{
    let all = children(t, node);
    let f = in_field(t, word);
    let g = of_kind(t, word);
    children_lie_directly_in(t, node);
    lemma_first(all, f, c);
    lemma_first(all, g, c);
    assert forall|d: int| #[trigger] f(d) <==> t[d].field == Some(word) by {}
    assert forall|d: int| #[trigger] g(d) <==> t[d].kind == word by {}
    if forall|d: int| lies_directly_in(t, node, d) && (#[trigger] t[d]).field == Some(word) ==> c <= d {
        assert forall|d: int| all.contains(d) && #[trigger] f(d) implies c <= d by {
            assert(t[d].field == Some(word));
        }
    }
    if forall|d: int| lies_directly_in(t, node, d) && (#[trigger] t[d]).kind == word ==> c <= d {
        assert forall|d: int| all.contains(d) && #[trigger] g(d) implies c <= d by {
            assert(t[d].kind == word);
        }
    }
    if forall|d: int| lies_directly_in(t, node, d) ==> (#[trigger] t[d]).field != Some(word) {
        assert forall|d: int| all.contains(d) implies !#[trigger] f(d) by {
            assert(t[d].field != Some(word));
        }
    }
    if forall|d: int| lies_directly_in(t, node, d) ==> (#[trigger] t[d]).kind != word {
        assert forall|d: int| all.contains(d) implies !#[trigger] g(d) by {
            assert(t[d].kind != word);
        }
    }
    assert forall|d: int| lies_directly_in(t, node, d) && (#[trigger] t[d]).field == Some(word) implies f(d) by {}
    assert forall|d: int| lies_directly_in(t, node, d) && (#[trigger] t[d]).kind == word implies g(d) by {}
}

proof fn lemma_picked(list: Seq<int>, f: spec_fn(int) -> bool)
    requires
        forall|a: int, b: int| 0 <= a < b < list.len() ==> (#[trigger] list[a]) < (#[trigger] list[b]),
    ensures
        forall|d: int| #[trigger] list.filter(f).contains(d) <==> list.contains(d) && f(d),
        forall|a: int, b: int|
            0 <= a < b < list.filter(f).len() ==> (#[trigger] list.filter(f)[a]) < (#[trigger] list.filter(f)[b]),
    decreases list.len(),
{
    let picked = list.filter(f);
    assert forall|d: int| #[trigger] picked.contains(d) <==> list.contains(d) && f(d) by {
        if list.contains(d) && f(d) {
            let i = choose|i: int| 0 <= i < list.len() && list[i] == d;
            list.lemma_filter_contains(f, i);
        }
        if picked.contains(d) {
            let i = choose|i: int| 0 <= i < picked.len() && picked[i] == d;
            list.lemma_filter_pred(f, i);
            list.lemma_filter_contains_rev(f, d);
        }
    }
    if list.len() > 0 {
        let front = list.drop_last();
        let last = list.last();
        assert forall|a: int, b: int| 0 <= a < b < front.len() implies (#[trigger] front[a]) < (
        #[trigger] front[b]) by {
            assert(list[a] < list[b]);
        }
        lemma_picked(front, f);
        assert(list =~= front.push(last));
        front.lemma_filter_push(last, f);
        let less = front.filter(f);
        assert forall|a: int, b: int| 0 <= a < b < picked.len() implies (#[trigger] picked[a]) < (
        #[trigger] picked[b]) by {
            if b < less.len() {
                assert(less[a] < less[b]);
            } else {
                assert(less.contains(less[a]));
                assert(front.contains(less[a]));
                let k = choose|k: int| 0 <= k < front.len() && front[k] == less[a];
                assert(list[k] < list[list.len() - 1]);
            }
        }
    } else {
        reveal(Seq::filter);
    }
}

/// The children in a field, and those of a kind, are all of them, in the order in
/// which they stand.
pub proof fn children_are_picked_in_order(t: Seq<NodeView>, node: int, word: Text)
    requires
        is_preorder(t),
        0 <= node < t.len(),
    ensures
        forall|c: int| #[trigger]
            field_children(t, node, word).contains(c) <==> lies_directly_in(t, node, c) && t[c].field == Some(word),
        forall|c: int| #[trigger]
            kind_children(t, node, word).contains(c) <==> lies_directly_in(t, node, c) && t[c].kind == word,
        forall|a: int, b: int|
            0 <= a < b < field_children(t, node, word).len() ==> (#[trigger] field_children(t, node, word)[a]) < (
            #[trigger] field_children(t, node, word)[b]),
        forall|a: int, b: int|
            0 <= a < b < kind_children(t, node, word).len() ==> (#[trigger] kind_children(t, node, word)[a]) < (
            #[trigger] kind_children(t, node, word)[b]),
{
    children_lie_directly_in(t, node);
    lemma_picked(children(t, node), in_field(t, word));
    lemma_picked(children(t, node), of_kind(t, word));
}

/// Whether a node is part of the contents of a string.
pub open spec fn is_contents(t: Seq<NodeView>, node: int, c: int) -> bool {
    lies_directly_in(t, node, c) && (t[c].kind == "string_fragment"@ || t[c].kind == "string_content"@ || t[c].kind
        == "escape_sequence"@)
}

/// A string reads as what stands from the start of its contents to their end; one
/// without contents does not read as anything.
pub proof fn strings_read_as_their_contents(
    t: Seq<NodeView>,
    node: int,
    first: int,
    last: int,
    x: Text,
    y: Text,
    z: Text,
)
    requires
        is_preorder(t),
        0 <= node < t.len(),
    ensures
        is_contents(t, node, first) && is_contents(t, node, last) && (forall|c: int| #[trigger]
            is_contents(t, node, c) ==> first <= c <= last) && t[first].start == encode_utf8(x).len() && t[last].end
            == encode_utf8(x + y).len() ==> literal(t, x + y + z, node) == Some(y),
        (forall|c: int| !#[trigger] is_contents(t, node, c)) ==> literal(t, x + y + z, node) is None,
{
    children_lie_directly_in(t, node);
    let f = of_string_content(t);
    lemma_picked(children(t, node), f);
    let pieces = children(t, node).filter(f);
    assert forall|c: int| #[trigger] pieces.contains(c) <==> is_contents(t, node, c) by {}
    if pieces.len() > 0 {
        assert(pieces.contains(pieces[0]));
        assert(pieces.contains(pieces[pieces.len() - 1]));
        assert(is_contents(t, node, pieces[0]));
        assert(is_contents(t, node, pieces[pieces.len() - 1]));
    }
    if is_contents(t, node, first) && is_contents(t, node, last) && (forall|c: int| #[trigger]
        is_contents(t, node, c) ==> first <= c <= last) && t[first].start == encode_utf8(x).len() && t[last].end
        == encode_utf8(x + y).len() {
        assert(pieces.contains(first));
        assert(pieces.contains(last));
        let i = choose|i: int| 0 <= i < pieces.len() && pieces[i] == first;
        let j = choose|j: int| 0 <= j < pieces.len() && pieces[j] == last;
        assert(pieces[0] == first);
        assert(pieces.last() == last);
        lemma_between(x, y, z);
    }
}

/// Whether one node is visited before another.
pub open spec fn comes_before(order: Seq<int>, i: int, j: int) -> bool {
    exists|a: int, b: int| 0 <= a < b < order.len() && #[trigger] order[a] == i && #[trigger] order[b] == j
}

proof fn lemma_before_in_front(x: Seq<int>, y: Seq<int>, i: int, j: int)
    requires
        comes_before(x, i, j),
    ensures
        comes_before(x + y, i, j),
{
    let (a, b) = choose|a: int, b: int| 0 <= a < b < x.len() && #[trigger] x[a] == i && #[trigger] x[b] == j;
    let all = x + y;
    assert(all[a] == i && all[b] == j);
}

proof fn lemma_before_behind(x: Seq<int>, y: Seq<int>, i: int, j: int)
    requires
        comes_before(y, i, j),
    ensures
        comes_before(x + y, i, j),
{
    let (a, b) = choose|a: int, b: int| 0 <= a < b < y.len() && #[trigger] y[a] == i && #[trigger] y[b] == j;
    let all = x + y;
    assert(all[x.len() + a] == i && all[x.len() + b] == j);
}

proof fn lemma_before_across(x: Seq<int>, y: Seq<int>, i: int, j: int)
    requires
        x.contains(i),
        y.contains(j),
    ensures
        comes_before(x + y, i, j),
{
    let a = choose|a: int| 0 <= a < x.len() && x[a] == i;
    let b = choose|b: int| 0 <= b < y.len() && y[b] == j;
    let all = x + y;
    assert(all[a] == i && all[x.len() + b] == j);
}

proof fn lemma_visited(t: Seq<NodeView>, c: int, e: int, i: int)
    requires
        0 <= c <= i < e <= t.len(),
    ensures
        visit_order(t, c, e).contains(i),
    decreases e - c,
{
    lemma_end_of(t, c);
    let m = if end_of(t, c) < e {
        end_of(t, c)
    } else {
        e
    };
    let x = visit_order(t, m, e);
    let y = visit_order(t, c + 1, m);
    let all = x + seq![c] + y;
    if i == c {
        assert(all[x.len() as int] == c);
    } else if i < m {
        lemma_visited(t, c + 1, m, i);
        let k = choose|k: int| 0 <= k < y.len() && y[k] == i;
        assert(all[x.len() + 1 + k] == i);
    } else {
        lemma_visited(t, m, e, i);
        let k = choose|k: int| 0 <= k < x.len() && x[k] == i;
        assert(all[k] == i);
    }
}

proof fn lemma_visited_in_turn(t: Seq<NodeView>, c: int, e: int, i: int, j: int)
    requires
        0 <= c <= i < j < e <= t.len(),
    ensures
        j < end_of(t, i) ==> comes_before(visit_order(t, c, e), i, j),
        j >= end_of(t, i) ==> comes_before(visit_order(t, c, e), j, i),
    decreases e - c,
{
    lemma_end_of(t, c);
    let m = if end_of(t, c) < e {
        end_of(t, c)
    } else {
        e
    };
    let x = visit_order(t, m, e);
    let y = visit_order(t, c + 1, m);
    let one = seq![c];
    let all = x + one + y;
    assert(visit_order(t, c, e) == all);
    assert(all =~= x + (one + y));
    if i == c {
        if j < m {
            lemma_visited(t, c + 1, m, j);
            assert(one[0] == c);
            assert(one.contains(c));
            lemma_before_across(one, y, i, j);
            lemma_before_behind(x, one + y, i, j);
        } else {
            lemma_visited(t, m, e, j);
            assert((one + y)[0] == c);
            assert((one + y).contains(c));
            lemma_before_across(x, one + y, j, i);
        }
    } else if j < m {
        lemma_visited_in_turn(t, c + 1, m, i, j);
        if j < end_of(t, i) {
            lemma_before_behind(x + one, y, i, j);
        } else {
            lemma_before_behind(x + one, y, j, i);
        }
    } else if i >= m {
        lemma_visited_in_turn(t, m, e, i, j);
        if j < end_of(t, i) {
            lemma_before_in_front(x, one + y, i, j);
        } else {
            lemma_before_in_front(x, one + y, j, i);
        }
    } else {
        lemma_nested(t, c, i);
        lemma_visited(t, m, e, j);
        lemma_visited(t, c + 1, m, i);
        let k = choose|k: int| 0 <= k < y.len() && y[k] == i;
        assert((one + y)[1 + k] == i);
        assert((one + y).contains(i));
        lemma_before_across(x, one + y, j, i);
    }
}

/// A node is visited before the nodes that lie in it; of two nodes of which neither
/// lies in the other the later one is visited first.
pub proof fn nodes_are_visited_in_turn(t: Seq<NodeView>, i: int, j: int)
    requires
        is_preorder(t),
        0 <= i < j < t.len(),
    ensures
        (forall|k: int| i < k <= j ==> (#[trigger] t[k]).depth > t[i].depth) ==> comes_before(visits(t), i, j),
        (exists|k: int| i < k <= j && (#[trigger] t[k]).depth <= t[i].depth) ==> comes_before(visits(t), j, i),
{
    lemma_range_end(t, 0, 1);
    assert(end_of(t, 0) == t.len());
    lemma_range_end(t, t[i].depth, i + 1);
    lemma_end_of(t, i);
    lemma_visited_in_turn(t, 0, t.len() as int, i, j);
    if forall|k: int| i < k <= j ==> (#[trigger] t[k]).depth > t[i].depth {
        if end_of(t, i) <= j {
            assert(t[end_of(t, i)].depth <= t[i].depth);
        }
    }
}

} // verus!
