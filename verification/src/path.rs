//! Paths as text. The parts of a path stand between slashes; empty parts and
//! `.` say nothing, but for a `.` that a path starts with. A slash that a
//! path starts with is a part of its own, the root.
use vstd::prelude::*;
use vstd::string::*;
use vstd::utf8::*;

use crate::text::{chars_of, join2, join3, same, string_of, texts, Text};

verus! {

/// The end of the stretch without slashes that starts at `i`.
pub open spec fn stretch_end(s: Text, i: int) -> int
    decreases s.len() - i,
{
    if i < 0 || i >= s.len() {
        s.len() as int
    } else if s[i] == '/' {
        i
    } else {
        stretch_end(s, i + 1)
    }
}

/// Whether the stretch from `i` to `j` says nothing.
pub open spec fn says_nothing(s: Text, i: int, j: int) -> bool {
    i == j || (j == i + 1 && s[i] == '.')
}

/// The places of the parts of `s` from `i` on, `i` being the start of a
/// stretch.
pub open spec fn parts_from(s: Text, i: int) -> Seq<(int, int)>
    decreases s.len() + 1 - i,
{
    if i < 0 || i >= s.len() {
        Seq::empty()
    } else {
        let j = stretch_end(s, i);
        proof {
            lemma_stretch_end(s, i);
        }
        let rest = parts_from(s, j + 1);
        if says_nothing(s, i, j) {
            rest
        } else {
            seq![(i, j)] + rest
        }
    }
}

/// The places of the parts of a path.
pub open spec fn parts(s: Text) -> Seq<(int, int)> {
    if s.len() > 0 && (s[0] == '/' || (s[0] == '.' && (s.len() == 1 || s[1] == '/'))) {
        seq![(0int, 1int)] + parts_from(s, 1)
    } else {
        parts_from(s, 0)
    }
}

/// The parts of a path.
pub open spec fn names(s: Text) -> Seq<Text> {
    parts(s).map_values(|p: (int, int)| s.subrange(p.0, p.1))
}

/// The path without its last part. The root and the empty path have no
/// parent.
pub open spec fn parent(s: Text) -> Option<Text> {
    let p = parts(s);
    if p.len() == 0 || s[p.last().0] == '/' {
        None
    } else if p.len() == 1 {
        Some(Seq::empty())
    } else {
        Some(s.take(p[p.len() - 2].1))
    }
}

/// Whether the parts of `dir` are the first parts of `s`.
pub open spec fn is_under(s: Text, dir: Text) -> bool {
    names(dir).is_prefix_of(names(s))
}

/// What is left of `s` behind the parts of `dir`.
pub open spec fn strip_prefix(s: Text, dir: Text) -> Option<Text> {
    let k = parts(dir).len() as int;
    if !is_under(s, dir) {
        None
    } else if k == parts(s).len() {
        Some(Seq::empty())
    } else {
        Some(s.subrange(parts(s)[k].0, parts(s).last().1))
    }
}

/// `s` followed by `rest`; a `rest` that starts at the root stands alone.
pub open spec fn join(s: Text, rest: Text) -> Text {
    if rest.len() > 0 && rest[0] == '/' {
        rest
    } else if s.len() > 0 && s.last() != '/' {
        s + "/"@ + rest
    } else {
        s + rest
    }
}

/// The place of the file name: the last part, unless that is the root, `.`
/// or `..`.
pub open spec fn file_part(s: Text) -> Option<(int, int)> {
    let p = parts(s);
    if p.len() == 0 {
        None
    } else {
        let (i, j) = p.last();
        let name = s.subrange(i, j);
        if name == "/"@ || name == "."@ || name == ".."@ {
            None
        } else {
            Some((i, j))
        }
    }
}

/// The file name of a path.
pub open spec fn file_name(s: Text) -> Option<Text> {
    match file_part(s) {
        Some((i, j)) => Some(s.subrange(i, j)),
        None => None,
    }
}

/// The place of the last dot between `i` and `j`, if there is one.
pub open spec fn last_dot(s: Text, i: int, j: int) -> Option<int>
    decreases j - i,
{
    if j <= i {
        None
    } else if s[j - 1] == '.' {
        Some(j - 1)
    } else {
        last_dot(s, i, j - 1)
    }
}

/// The place where the extension of a path starts: behind the last dot of the
/// file name, if that is not its first character.
pub open spec fn extension_start(s: Text) -> Option<int> {
    match file_part(s) {
        Some((i, j)) => match last_dot(s, i, j) {
            Some(k) => if k > i {
                Some(k + 1)
            } else {
                None
            },
            None => None,
        },
        None => None,
    }
}

/// The extension of a path.
pub open spec fn extension(s: Text) -> Option<Text> {
    match extension_start(s) {
        Some(k) => Some(s.subrange(k, (file_part(s)->0).1)),
        None => None,
    }
}

/// The path up to the end of the stem of its file name: up to the dot before
/// its extension, or up to the end of the file name; all of it where there is
/// no file name.
pub open spec fn up_to_stem(s: Text) -> Text {
    match file_part(s) {
        Some((i, j)) => match extension_start(s) {
            Some(k) => s.take(k - 1),
            None => s.take(j),
        },
        None => s,
    }
}

/// The path without its extension. As many characters as the extension has go
/// from the end of the path, and then what follows the stem of the file name
/// that is left.
pub open spec fn without_extension(s: Text) -> Text {
    match extension(s) {
        Some(ext) => up_to_stem(s.take(s.len() - ext.len())),
        None => up_to_stem(s),
    }
}

/// A stretch ends at a slash or at the end of the path.
pub proof fn lemma_stretch_end(s: Text, i: int)
    requires
        0 <= i <= s.len(),
    ensures
        i <= stretch_end(s, i) <= s.len(),
        stretch_end(s, i) < s.len() ==> s[stretch_end(s, i)] == '/',
        forall|k: int| i <= k < stretch_end(s, i) ==> s[k] != '/',
    decreases s.len() - i,
{
    if i < s.len() && s[i] != '/' {
        lemma_stretch_end(s, i + 1);
    }
}

/// Parts lie inside the path, one behind the other, and hold no slash.
proof fn lemma_parts_from(s: Text, i: int)
    requires
        0 <= i,
    ensures
        forall|k: int|
            0 <= k < parts_from(s, i).len() ==> i <= (#[trigger] parts_from(s, i)[k]).0 < parts_from(s, i)[k].1
                <= s.len() && s[parts_from(s, i)[k].0] != '/',
        forall|k: int, m: int|
            0 <= k < m < parts_from(s, i).len() ==> (#[trigger] parts_from(s, i)[k]).1 < (
            #[trigger] parts_from(s, i)[m]).0,
    decreases s.len() + 1 - i,
{
    if i < s.len() {
        let j = stretch_end(s, i);
        lemma_stretch_end(s, i);
        lemma_parts_from(s, j + 1);
        let rest = parts_from(s, j + 1);
        if !says_nothing(s, i, j) {
            let all = parts_from(s, i);
            assert(all =~= seq![(i, j)] + rest);
            assert forall|k: int| 0 <= k < all.len() implies i <= (#[trigger] all[k]).0 < all[k].1 <= s.len()
                && s[all[k].0] != '/' by {
                if k > 0 {
                    assert(all[k] == rest[k - 1]);
                }
            }
            assert forall|k: int, m: int| 0 <= k < m < all.len() implies (#[trigger] all[k]).1 < (
            #[trigger] all[m]).0 by {
                assert(all[m] == rest[m - 1]);
                if k > 0 {
                    assert(all[k] == rest[k - 1]);
                }
            }
        }
    }
}

/// Parts lie inside the path, one behind the other; only the first can be the
/// root.
pub proof fn lemma_parts(s: Text)
    ensures
        forall|k: int| 0 <= k < parts(s).len() ==> 0 <= (#[trigger] parts(s)[k]).0 < parts(s)[k].1 <= s.len(),
        forall|k: int, m: int|
            0 <= k < m < parts(s).len() ==> (#[trigger] parts(s)[k]).1 <= (#[trigger] parts(s)[m]).0,
        forall|k: int| 0 < k < parts(s).len() ==> s[(#[trigger] parts(s)[k]).0] != '/',
{
    lemma_parts_from(s, 0);
    lemma_parts_from(s, 1);
    if s.len() > 0 && (s[0] == '/' || (s[0] == '.' && (s.len() == 1 || s[1] == '/'))) {
        let rest = parts_from(s, 1);
        assert forall|k: int| 0 < k < parts(s).len() implies #[trigger] parts(s)[k] == rest[k - 1] by {}
    }
}

/// Whether the characters from `i` up to `j` are all that stands between two
/// slashes, or between a slash and an end of the path.
pub open spec fn is_stretch(s: Text, i: int, j: int) -> bool {
    &&& 0 <= i < j <= s.len()
    &&& i == 0 || s[i - 1] == '/'
    &&& j == s.len() || s[j] == '/'
    &&& forall|k: int| i <= k < j ==> s[k] != '/'
}

/// Parts are stretches.
proof fn lemma_parts_are_stretches(s: Text, from: int)
    requires
        0 <= from <= s.len() + 1,
        from == 0 || from > s.len() || s[from - 1] == '/',
    ensures
        forall|k: int|
            0 <= k < parts_from(s, from).len() ==> is_stretch(
                s,
                (#[trigger] parts_from(s, from)[k]).0,
                parts_from(s, from)[k].1,
            ),
    decreases s.len() + 1 - from,
{
    if from < s.len() {
        let j = stretch_end(s, from);
        lemma_stretch_end(s, from);
        lemma_parts_are_stretches(s, j + 1);
        let rest = parts_from(s, j + 1);
        let all = parts_from(s, from);
        if !says_nothing(s, from, j) {
            assert forall|k: int| 0 <= k < all.len() implies is_stretch(s, (#[trigger] all[k]).0, all[k].1) by {
                if k > 0 {
                    assert(all[k] == rest[k - 1]);
                }
            }
        }
    }
}

/// Stretches are parts, unless they say nothing.
proof fn lemma_stretches_are_parts(s: Text, from: int, i: int, j: int)
    requires
        0 <= from <= i,
        is_stretch(s, i, j),
        !says_nothing(s, i, j),
    ensures
        parts_from(s, from).contains((i, j)),
    decreases s.len() + 1 - from,
{
    let e = stretch_end(s, from);
    lemma_stretch_end(s, from);
    let rest = parts_from(s, e + 1);
    let all = parts_from(s, from);
    if from == i {
        if e < j {
            assert(s[e] != '/');
        } else if j < e {
            assert(s[j] != '/');
        }
        assert(all[0] == (i, j));
    } else {
        if i <= e {
            assert(s[i - 1] != '/');
        }
        lemma_stretches_are_parts(s, e + 1, i, j);
        let k = choose|k: int| 0 <= k < rest.len() && rest[k] == (i, j);
        if says_nothing(s, from, e) {
            assert(all[k] == (i, j));
        } else {
            assert(all[k + 1] == (i, j));
        }
    }
}

/// A name is a part of a path exactly where it is one of its stretches.
pub proof fn lemma_named(s: Text, name: Text)
    requires
        name.len() > 0,
        name != "/"@,
        name != "."@,
    ensures
        names(s).contains(name) <==> exists|i: int, j: int| #[trigger]
            is_stretch(s, i, j) && s.subrange(i, j) == name,
{
    reveal_strlit("/");
    reveal_strlit(".");
    let rooted = s.len() > 0 && s[0] == '/';
    let dotted = s.len() > 0 && s[0] == '.' && (s.len() == 1 || s[1] == '/');
    if dotted && s.len() > 1 {
        assert(stretch_end(s, 1) == 1);
        assert(parts_from(s, 1) == parts_from(s, 2));
    }
    let from: int = if rooted {
        1
    } else if dotted {
        2
    } else {
        0
    };
    let rest = parts_from(s, from);
    let all = parts(s);
    if rooted || dotted {
        assert(all =~= seq![(0int, 1int)] + rest);
        assert(s.subrange(0, 1) =~= seq![s[0]]);
        assert("/"@ =~= seq!['/']);
        assert("."@ =~= seq!['.']);
    }
    lemma_parts_are_stretches(s, from);
    if names(s).contains(name) {
        let k = choose|k: int| 0 <= k < names(s).len() && names(s)[k] == name;
        assert(names(s)[k] == s.subrange(all[k].0, all[k].1));
        if rooted || dotted {
            assert(k != 0);
            assert(all[k] == rest[k - 1]);
        }
        assert(is_stretch(s, all[k].0, all[k].1));
    }
    if exists|i: int, j: int| #[trigger] is_stretch(s, i, j) && s.subrange(i, j) == name {
        let (i, j) = choose|i: int, j: int| #[trigger] is_stretch(s, i, j) && s.subrange(i, j) == name;
        if j == i + 1 && s[i] == '.' {
            assert(name =~= "."@);
        }
        if dotted {
            assert(i != 0) by {
                if i == 0 {
                    if j > 1 {
                        assert(s[1] != '/');
                    }
                    assert(j == 1);
                }
            }
            assert(i >= 2);
        }
        lemma_stretches_are_parts(s, from, i, j);
        let k = choose|k: int| 0 <= k < rest.len() && rest[k] == (i, j);
        let at: int = if rooted || dotted {
            k + 1
        } else {
            k
        };
        assert(all[at] == (i, j));
        assert(names(s)[at] == name);
    }
}

/// The last stretch of a path is its last part, unless it says nothing.
proof fn lemma_last_part(s: Text, i: int)
    requires
        is_stretch(s, i, s.len() as int),
        !says_nothing(s, i, s.len() as int),
    ensures
        parts(s).len() > 0,
        parts(s).last() == (i, s.len() as int),
{
    let n = s.len() as int;
    let rooted = s.len() > 0 && s[0] == '/';
    let dotted = s.len() > 0 && s[0] == '.' && (s.len() == 1 || s[1] == '/');
    if dotted && s.len() > 1 {
        assert(stretch_end(s, 1) == 1);
        assert(parts_from(s, 1) == parts_from(s, 2));
    }
    let from: int = if rooted {
        1
    } else if dotted {
        2
    } else {
        0
    };
    if dotted {
        assert(i >= 2) by {
            if i == 0 {
                assert(s[1] != '/');
            }
        }
    }
    let rest = parts_from(s, from);
    lemma_stretches_are_parts(s, from, i, n);
    let k = choose|k: int| 0 <= k < rest.len() && rest[k] == (i, n);
    let at: int = if rooted || dotted {
        k + 1
    } else {
        k
    };
    assert(parts(s)[at] == (i, n));
    lemma_parts(s);
    let last = parts(s).len() - 1;
    if at < last {
        assert(parts(s)[at].1 <= parts(s)[last].0);
    }
}

/// The place where the last stretch of a path starts.
spec fn last_start(s: Text) -> int
    decreases s.len(),
{
    if s.len() == 0 || s.last() == '/' {
        s.len() as int
    } else {
        last_start(s.drop_last())
    }
}

proof fn lemma_last_start(s: Text)
    ensures
        0 <= last_start(s) <= s.len(),
        last_start(s) == 0 || s[last_start(s) - 1] == '/',
        forall|k: int| last_start(s) <= k < s.len() ==> s[k] != '/',
    decreases s.len(),
{
    if s.len() > 0 && s.last() != '/' {
        lemma_last_start(s.drop_last());
        let f = last_start(s);
        assert forall|k: int| f <= k < s.len() implies s[k] != '/' by {
            if k < s.len() - 1 {
                assert(s.drop_last()[k] == s[k]);
            }
        }
        if f > 0 {
            assert(s.drop_last()[f - 1] == s[f - 1]);
        }
    }
}

/// The file name of a path whose last stretch is neither `.` nor `..`.
proof fn lemma_last_file(s: Text, i: int)
    requires
        is_stretch(s, i, s.len() as int),
        s.len() - i >= 2,
        !(s.len() - i == 2 && s[i] == '.' && s[i + 1] == '.'),
    ensures
        file_part(s) == Some((i, s.len() as int)),
{
    reveal_strlit("/");
    reveal_strlit(".");
    reveal_strlit("..");
    let n = s.len() as int;
    lemma_last_part(s, i);
    let name = s.subrange(i, n);
    assert(name.len() == n - i);
    assert("/"@.len() == 1);
    assert("."@.len() == 1);
    if name == ".."@ {
        assert(name[0] == s[i]);
        assert(name[1] == s[i + 1]);
    }
}

/// Appending a dot and some characters, no dots and no slashes among them, to
/// a path that ends neither with a slash nor with a part `.` gives it these as
/// its extension; without it, it is the path that it was.
pub proof fn appended_extension(s: Text, ext: Text)
    requires
        s.len() > 0,
        s.last() != '/',
        !(s.last() == '.' && (s.len() == 1 || s[s.len() - 2] == '/')),
        ext.len() > 0,
        forall|k: int| 0 <= k < ext.len() ==> ext[k] != '/' && ext[k] != '.',
    ensures
        extension(s + seq!['.'] + ext) == Some(ext),
        without_extension(s + seq!['.'] + ext) == s,
{
    let t = s + seq!['.'] + ext;
    let n = t.len() as int;
    let d = s.len() as int;
    let i = last_start(s);
    lemma_last_start(s);
    assert(i < d);
    assert forall|k: int| i <= k < n implies t[k] != '/' by {
        if k < d {
            assert(t[k] == s[k]);
        } else if k > d {
            assert(t[k] == ext[k - d - 1]);
        }
    }
    if i > 0 {
        assert(t[i - 1] == s[i - 1]);
    }
    assert(is_stretch(t, i, n));
    lemma_last_file(t, i);
    lemma_no_dots(t, i, d, n);
    assert(last_dot(t, i, d + 1) == Some(d));
    assert(extension_start(t) == Some(d + 1));
    assert(t.subrange(d + 1, n) =~= ext);
    let u = t.take(n - ext.len());
    assert(u =~= s + seq!['.']);
    assert forall|k: int| i <= k < d + 1 implies u[k] != '/' by {
        assert(u[k] == t[k]);
    }
    if i > 0 {
        assert(u[i - 1] == t[i - 1]);
    }
    assert(is_stretch(u, i, d + 1));
    if d + 1 - i == 2 && u[i] == '.' {
        assert(s[i] == '.');
        assert(s.last() == '.');
    }
    lemma_last_file(u, i);
    assert(last_dot(u, i, d + 1) == Some(d));
    assert(u.take(d) =~= s);
}

proof fn lemma_no_dots(s: Text, i: int, d: int, j: int)
    requires
        0 <= i <= d < j <= s.len(),
        s[d] == '.',
        forall|k: int| d < k < j ==> s[k] != '.',
    ensures
        last_dot(s, i, j) == last_dot(s, i, d + 1),
    decreases j - d,
{
    if j > d + 1 {
        lemma_no_dots(s, i, d, j - 1);
    }
}

/// The path with these parts, written with one slash between two of them.
pub open spec fn rendered(list: Seq<Text>) -> Text
    decreases list.len(),
{
    if list.len() == 0 {
        Seq::empty()
    } else {
        join(rendered(list.drop_last()), list.last())
    }
}

/// Whether a path is written with one slash between two parts, and nothing
/// that says nothing.
pub open spec fn is_plain(s: Text) -> bool {
    s == rendered(names(s))
}

/// The bytes of two texts are those of one and then of the other.
proof fn lemma_bytes(a: Text, b: Text)
    ensures
        encode_utf8(a + b) == encode_utf8(a) + encode_utf8(b),
    decreases a.len(),
{
    if a.len() == 0 {
        assert(a + b =~= b);
        assert(encode_utf8(a) + encode_utf8(b) =~= encode_utf8(b));
    } else {
        assert((a + b).drop_first() =~= a.drop_first() + b);
        lemma_bytes(a.drop_first(), b);
        let first = encode_scalar(a[0] as u32);
        assert(first + (encode_utf8(a.drop_first()) + encode_utf8(b)) =~= (first + encode_utf8(
            a.drop_first(),
        )) + encode_utf8(b));
    }
}

/// A path with more parts takes more bytes.
proof fn lemma_rendered_longer(list: Seq<Text>, k: int)
    requires
        0 <= k < list.len(),
        forall|m: int| 0 <= m < list.len() ==> (#[trigger] list[m]).len() > 0,
        forall|m: int| 0 < m < list.len() ==> (#[trigger] list[m])[0] != '/',
    ensures
        encode_utf8(rendered(list.take(k))).len() < encode_utf8(rendered(list)).len(),
    decreases list.len(),
{
    let front = list.drop_last();
    let last = list.last();
    let whole = rendered(list);
    assert(last == list[list.len() - 1]);
    assert(encode_utf8(last).len() > 0) by {
        encode_utf8_first_scalar(last);
    }
    if list.len() == 1 {
        assert(whole == join(rendered(front), last));
        assert(rendered(front) =~= Seq::<char>::empty());
        assert(whole =~= last);
        assert(list.take(k) =~= Seq::<Text>::empty());
    } else {
        let r = rendered(front);
        let mid = if r.len() > 0 && r.last() != '/' {
            "/"@
        } else {
            Seq::empty()
        };
        assert(whole =~= r + (mid + last));
        lemma_bytes(r, mid + last);
        lemma_bytes(mid, last);
        if k == list.len() - 1 {
            assert(list.take(k) =~= front);
        } else {
            assert forall|m: int| 0 <= m < front.len() implies #[trigger] front[m] == list[m] by {}
            lemma_rendered_longer(front, k);
            assert(front.take(k) =~= list.take(k));
        }
    }
}

/// Of two plain paths above a third the one with more parts is longer.
pub proof fn deeper_is_longer(s: Text, a: Text, b: Text)
    requires
        is_under(s, a),
        is_under(s, b),
        is_plain(a),
        is_plain(b),
        names(a).len() < names(b).len(),
    ensures
        encode_utf8(a).len() < encode_utf8(b).len(),
{
    let x = names(a);
    let y = names(b);
    assert(x =~= y.take(x.len() as int)) by {
        assert forall|k: int| 0 <= k < x.len() implies x[k] == y[k] by {
            assert(names(s).subrange(0, x.len() as int)[k] == x[k]);
            assert(names(s).subrange(0, y.len() as int)[k] == y[k]);
        }
    }
    lemma_parts(b);
    assert forall|m: int| 0 <= m < y.len() implies (#[trigger] y[m]).len() > 0 by {
        assert(parts(b)[m].0 < parts(b)[m].1);
    }
    assert forall|m: int| 0 < m < y.len() implies (#[trigger] y[m])[0] != '/' by {
        assert(b[parts(b)[m].0] != '/');
    }
    lemma_rendered_longer(y, x.len() as int);
}

/// A parent is shorter than its path.
pub proof fn parent_is_shorter(s: Text)
    ensures
        parent(s) is Some ==> parent(s)->0.len() < s.len(),
{
    lemma_parts(s);
    let p = parts(s);
    if p.len() > 1 {
        assert(p[p.len() - 2].1 <= p[p.len() - 1].0);
    }
    if p.len() > 0 {
        assert(p[p.len() - 1].0 < p[p.len() - 1].1);
    }
}

/// The places of the parts of a path.
fn find_parts(s: &Vec<char>) -> (r: Vec<(usize, usize)>)
    ensures
        r@.len() == parts(s@).len(),
        forall|k: int| 0 <= k < r@.len() ==>
            (#[trigger] r@[k]).0 == parts(s@)[k].0 && r@[k].1 == parts(s@)[k].1,
        forall|k: int| 0 <= k < r@.len() ==> (#[trigger] r@[k]).0 < r@[k].1 <= s@.len(),
{
    let n = s.len();
    let mut out: Vec<(usize, usize)> = Vec::new();
    let mut i: usize = 0;
    let ghost goal = parts(s@);
    if n > 0 && (s[0] == '/' || (s[0] == '.' && (n == 1 || s[1] == '/'))) {
        out.push((0, 1));
        i = 1;
    }
    while i < n
        invariant
            n == s@.len(),
            goal == parts(s@),
            0 <= i,
            out@.len() + parts_from(s@, i as int).len() == goal.len(),
            forall|k: int| 0 <= k < out@.len() ==>
                (#[trigger] out@[k]).0 == goal[k].0 && out@[k].1 == goal[k].1,
            forall|k: int|
                0 <= k < parts_from(s@, i as int).len() ==>
                    (#[trigger] parts_from(s@, i as int)[k]) == goal[out@.len() + k],
        decreases n - i,
    {
        let ghost here = parts_from(s@, i as int);
        let ghost j0 = stretch_end(s@, i as int);
        proof {
            lemma_stretch_end(s@, i as int);
        }
        let mut j: usize = i;
        while j < n && s[j] != '/'
            invariant
                n == s@.len(),
                i <= j <= j0 <= n,
                j0 == stretch_end(s@, i as int),
                stretch_end(s@, j as int) == j0,
                j0 < s@.len() ==> s@[j0] == '/',
                forall|k: int| i <= k < j0 ==> s@[k] != '/',
            decreases n - j,
        {
            j = j + 1;
        }
        assert(j == j0);
        let ghost rest = parts_from(s@, j + 1);
        if i == j || (j == i + 1 && s[i] == '.') {
            assert(here == rest);
        } else {
            assert(here =~= seq![(i as int, j as int)] + rest);
            assert(here[0] == goal[out@.len() as int]);
            let ghost was = out@;
            out.push((i, j));
            assert forall|k: int| 0 <= k < rest.len() implies (#[trigger] rest[k]) == goal[out@.len() + k] by {
                assert(here[k + 1] == goal[was.len() + k + 1]);
            }
        }
        if j == n {
            assert(rest.len() == 0);
            i = n;
        } else {
            i = j + 1;
        }
    }
    proof {
        lemma_parts(s@);
        assert(out@.len() == goal.len());
        assert forall|k: int| 0 <= k < out@.len() implies (#[trigger] out@[k]).0 < out@[k].1 <= s@.len() by {
            assert(goal[k].0 < goal[k].1);
        }
    }
    out
}

/// The parts of a path.
pub fn parts_of(s: &str) -> (r: Vec<String>)
    ensures
        texts(r@) == names(s@),
{
    let chars = chars_of(s);
    let spans = find_parts(&chars);
    let mut out: Vec<String> = Vec::new();
    let mut i: usize = 0;
    while i < spans.len()
        invariant
            i <= spans@.len(),
            chars@ == s@,
            spans@.len() == parts(s@).len(),
            forall|k: int|
                0 <= k < spans@.len() ==>
                    (#[trigger] spans@[k]).0 == parts(s@)[k].0 && spans@[k].1 == parts(s@)[k].1,
            forall|k: int| 0 <= k < spans@.len() ==> (#[trigger] spans@[k]).0 < spans@[k].1 <= s@.len(),
            texts(out@) =~= names(s@).take(i as int),
        decreases spans@.len() - i,
    {
        let ghost was = texts(out@);
        let ghost span = spans@[i as int];
        out.push(string_of(&chars, spans[i].0, spans[i].1));
        assert(texts(out@) =~= was.push(names(s@)[i as int]));
        i = i + 1;
    }
    out
}

/// The path without its last part.
pub fn parent_of(s: &str) -> (r: Option<String>)
    ensures
        r is Some <==> parent(s@) is Some,
        r is Some ==> r->0@ == parent(s@)->0,
{
    let chars = chars_of(s);
    let spans = find_parts(&chars);
    let n = spans.len();
    if n == 0 {
        return None;
    }
    assert(spans@[n - 1].0 == parts(s@).last().0);
    if chars[spans[n - 1].0] == '/' {
        return None;
    }
    if n == 1 {
        return Some(String::new());
    }
    assert(spans@[n - 2].1 == parts(s@)[n - 2].1);
    Some(string_of(&chars, 0, spans[n - 2].1))
}

/// Whether the strings of `a` are the first strings of `b`.
fn begins(a: &Vec<String>, b: &Vec<String>) -> (r: bool)
    ensures
        r == texts(a@).is_prefix_of(texts(b@)),
{
    if a.len() > b.len() {
        return false;
    }
    let mut i: usize = 0;
    while i < a.len()
        invariant
            i <= a@.len() <= b@.len(),
            forall|k: int| 0 <= k < i ==> #[trigger] texts(a@)[k] == texts(b@)[k],
        decreases a@.len() - i,
    {
        if !same(a[i].as_str(), b[i].as_str()) {
            assert(texts(a@)[i as int] != texts(b@)[i as int]);
            assert(texts(b@).subrange(0, a@.len() as int)[i as int] == texts(b@)[i as int]);
            return false;
        }
        i = i + 1;
    }
    assert(texts(a@) =~= texts(b@).subrange(0, a@.len() as int));
    true
}

/// Whether the parts of `dir` are the first parts of `s`.
pub fn lies_under(s: &str, dir: &str) -> (r: bool)
    ensures
        r == is_under(s@, dir@),
{
    let a = parts_of(dir);
    let b = parts_of(s);
    begins(&a, &b)
}

/// What is left of `s` behind the parts of `dir`.
pub fn stripped(s: &str, dir: &str) -> (r: Option<String>)
    ensures
        r is Some <==> strip_prefix(s@, dir@) is Some,
        r is Some ==> r->0@ == strip_prefix(s@, dir@)->0,
{
    if !lies_under(s, dir) {
        return None;
    }
    let chars = chars_of(s);
    let spans = find_parts(&chars);
    let prefix = chars_of(dir);
    let k = find_parts(&prefix).len();
    assert(names(s@).len() == parts(s@).len());
    assert(names(dir@).len() == parts(dir@).len());
    if k == spans.len() {
        return Some(String::new());
    }
    proof {
        lemma_parts(s@);
        let last = spans@.len() - 1;
        assert(spans@[k as int].0 == parts(s@)[k as int].0);
        assert(spans@[last].1 == parts(s@)[last].1);
        if k < last {
            assert(parts(s@)[k as int].1 <= parts(s@)[last].0);
        }
    }
    Some(string_of(&chars, spans[k].0, spans[spans.len() - 1].1))
}

/// Whether `s` starts with the character `c`.
pub fn starts_with_char(s: &str, c: char) -> (r: bool)
    ensures
        r == (s@.len() > 0 && s@[0] == c),
{
    let mut it = s.chars();
    match it.next() {
        Some(d) => d == c,
        None => false,
    }
}

/// `s` followed by `rest`; a `rest` that starts at the root stands alone.
pub fn joined(s: &str, rest: &str) -> (r: String)
    ensures
        r@ == join(s@, rest@),
{
    if starts_with_char(rest, '/') {
        return rest.to_owned();
    }
    let chars = chars_of(s);
    if chars.len() > 0 && chars[chars.len() - 1] != '/' {
        join3(s, "/", rest)
    } else {
        join2(s, rest)
    }
}

/// The place of the file name.
fn find_file(s: &Vec<char>) -> (r: Option<(usize, usize)>)
    ensures
        r is Some <==> file_part(s@) is Some,
        r is Some ==> (r->0).0 == (file_part(s@)->0).0 && (r->0).1 == (file_part(s@)->0).1,
        r is Some ==> (r->0).0 < (r->0).1 <= s@.len(),
{
    let spans = find_parts(s);
    let n = spans.len();
    if n == 0 {
        return None;
    }
    let i = spans[n - 1].0;
    let j = spans[n - 1].1;
    assert(parts(s@).last() == (i as int, j as int)) by {
        assert(spans@[n - 1].0 == parts(s@)[n - 1].0);
    }
    let name = string_of(s, i, j);
    if same(name.as_str(), "/") || same(name.as_str(), ".") || same(name.as_str(), "..") {
        None
    } else {
        Some((i, j))
    }
}

/// The file name of a path.
pub fn file_name_of(s: &str) -> (r: Option<String>)
    ensures
        r is Some <==> file_name(s@) is Some,
        r is Some ==> r->0@ == file_name(s@)->0,
{
    let chars = chars_of(s);
    match find_file(&chars) {
        Some((i, j)) => Some(string_of(&chars, i, j)),
        None => None,
    }
}

/// The place of the last dot between `i` and `j`.
fn find_dot(s: &Vec<char>, i: usize, j: usize) -> (r: Option<usize>)
    requires
        i <= j <= s@.len(),
    ensures
        r is Some <==> last_dot(s@, i as int, j as int) is Some,
        r is Some ==> r->0 == last_dot(s@, i as int, j as int)->0 && i <= r->0 < j,
{
    let mut k: usize = j;
    while k > i
        invariant
            i <= k <= j <= s@.len(),
            last_dot(s@, i as int, k as int) == last_dot(s@, i as int, j as int),
        decreases k - i,
    {
        if s[k - 1] == '.' {
            return Some(k - 1);
        }
        k = k - 1;
    }
    None
}

/// The places where the extension of a path starts and ends.
fn find_extension(s: &Vec<char>) -> (r: Option<(usize, usize)>)
    ensures
        r is Some <==> extension_start(s@) is Some,
        r is Some ==> (r->0).0 == extension_start(s@)->0 && (r->0).1 == (file_part(s@)->0).1,
        r is Some ==> 0 < (r->0).0 <= (r->0).1 <= s@.len(),
{
    match find_file(s) {
        Some((i, j)) => match find_dot(s, i, j) {
            Some(k) => if k > i {
                Some((k + 1, j))
            } else {
                None
            },
            None => None,
        },
        None => None,
    }
}

/// The extension of a path.
pub fn extension_of(s: &str) -> (r: Option<String>)
    ensures
        r is Some <==> extension(s@) is Some,
        r is Some ==> r->0@ == extension(s@)->0,
{
    let chars = chars_of(s);
    match find_extension(&chars) {
        Some((k, j)) => Some(string_of(&chars, k, j)),
        None => None,
    }
}

/// The path up to the end of the stem of its file name.
fn cut_stem(s: &str) -> (r: String)
    ensures
        r@ == up_to_stem(s@),
{
    let chars = chars_of(s);
    match find_file(&chars) {
        Some((i, j)) => match find_extension(&chars) {
            Some((k, _)) => string_of(&chars, 0, k - 1),
            None => string_of(&chars, 0, j),
        },
        None => s.to_owned(),
    }
}

/// The path without its extension.
pub fn extension_removed(s: &str) -> (r: String)
    ensures
        r@ == without_extension(s@),
{
    let chars = chars_of(s);
    match find_extension(&chars) {
        Some((k, j)) => {
            let front = string_of(&chars, 0, chars.len() - (j - k));
            assert(front@ =~= s@.take(s@.len() - extension(s@)->0.len()));
            cut_stem(front.as_str())
        },
        None => cut_stem(s),
    }
}

} // verus!
